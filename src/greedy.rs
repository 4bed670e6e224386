//! The greedy pass: faces are collected slab by slab into layer planes, merged
//! along rows, then across rows or slabs, and emitted as rectangles.
use vstd::prelude::*;
use crate::array3d::Array3D;
use crate::blocks::CHUNK_SIZE;
use crate::chunk::{face_payload, face_visible, is_chunk, known_blocks};
use crate::direction::DIRECTION_UP;
use crate::encoder::{Face, covers, emit_all, lemma_emit_len};
use crate::face_buffer::FaceBuffer;
use crate::merge_spec::{
    flat_emits, flat_faces, flat_flush, flat_merged_row, flat_pending, flat_rect, flat_rows_faces, greedy_faces,
    greedy_upto, grown, joins, merged_side, side_emits, side_flush, side_pending, side_rect, slab_faces,
    slab_row, slab_side_faces, final_side_faces, stacks,
};
use crate::layers::{
    cell_height, cell_payload, cell_width, collect_slab, in_slab_planes, layers_ok, lemma_cell_bits,
    lemma_cell_grow, lemma_cell_key, lemma_index_bits, lemma_plane_col, lemma_plane_pos,
    lemma_plane_value_bound, lemma_run_head, lemma_run_len_bound, lemma_runs_apart,
    lemma_side_origin_range, lemma_start_fields, merge_plane_rows, merge_row, merged_cell,
    pending_ok, plane_origin, plane_pos, plane_row, plane_value, run_head, run_len, side_origin,
    slab_index, unrotate,
};
use crate::rects::{
    added_dir, buffer_ok, covered_by, emit_rect, faces_complete, faces_disjoint, faces_ok,
    faces_sound, lemma_added_dir_push, lemma_covered_last, lemma_covered_prefix,
    lemma_flat_face_covers, lemma_flat_face_covers_only, lemma_flat_face_ok, lemma_flat_face_sound,
    lemma_prefix_push, lemma_prefix_refl, lemma_side_face_covers, lemma_side_face_covers_only,
    lemma_side_face_ok, lemma_side_face_sound, lemma_sound_push, pending_covers, prefix_of,
};
use crate::merge_proofs::{
    flat_below, flat_cell_sound, flat_covered_upto, flat_done, flat_flush_progress, flat_free,
    flat_merge_apart, flat_progress, lemma_flat_apart_emit, lemma_flat_apart_grow,
    lemma_flat_apart_skip, lemma_flat_below_frame, lemma_flat_covered_prefix,
    lemma_flat_flush_apart, lemma_flat_flush_step, lemma_flat_progress_done, lemma_flat_row_end, lemma_flat_row_start,
    lemma_flat_step_emit, lemma_flat_step_grow, lemma_flat_step_skip, lemma_merged_side_sound,
    lemma_side_apart_emit, lemma_side_apart_frame, lemma_side_apart_grow, lemma_side_apart_lframe,
    lemma_side_apart_skip, lemma_side_covered_prefix, lemma_side_done_frame, lemma_side_flush_apart,
    lemma_side_flush_step, lemma_side_progress_done, lemma_side_step_emit, lemma_side_step_grow,
    lemma_side_step_skip, row_apart, rows_apart, side_apart, side_below, side_cell_sound,
    side_covered, side_done, side_flush_progress, side_free, side_merge_apart, side_progress,
};

verus! {

/// Merges the current slab's side plane of direction `dir` with the previous
/// slab's: a cell whose pending rectangle matches the one above it in payload
/// and width, and is not yet `S` high, takes it over one slab taller; every
/// other pending rectangle of the previous slab is emitted.
#[verifier::rlimit(50)]
fn merge_side_plane(
    layers: &mut Array3D,
    buffer: &mut FaceBuffer,
    dir: u32,
    cur: u32,
    real_h: u32,
    c: Ghost<Seq<u32>>,
)
    requires
        layers_ok(old(layers)),
        buffer_ok(old(buffer)),
        faces_sound(c@, old(buffer).faces@),
        1 <= dir <= 4,
        cur == 0 || cur == 6,
        real_h < 32,
        forall|row: int, col: int|
            0 <= row < 32 && 0 <= col < 32 ==> #[trigger] old(layers)@[slab_index(dir, cur as int, row, col)] == plane_value(
                c@,
                dir,
                real_h as int,
                row,
                col,
            ),
        forall|i: int|
            0 <= i < 1024 ==> {
                &&& pending_ok(#[trigger] old(layers)@[(6 - cur + dir) * 1024 + i], i % 32, real_h as int)
                &&& side_cell_sound(c@, dir, real_h as int, i / 32, i % 32, old(layers)@[(6 - cur + dir) * 1024 + i])
            },
        side_done(c@, old(buffer).faces@, old(layers)@, (6 - cur + dir) * 1024, dir, real_h as int),
        side_free(old(buffer).faces@, old(layers)@, (6 - cur + dir) * 1024, dir, real_h as int, 0, 1024),
        side_below(old(buffer).faces@, dir, real_h as int),
        rows_apart(old(layers)@, (6 - cur + dir) * 1024),
        faces_disjoint(old(buffer).faces@),
        forall|i: int| 0 <= i < 1024 ==> #[trigger] old(layers)@[(6 - cur + dir) * 1024 + i] == side_pending(c@, dir, real_h as nat)[i],
        old(buffer).faces@.len() < 0x1000_0000,
    ensures
        forall|i: int| 0 <= i < 1024 ==> #[trigger] final(layers)@[(cur + dir) * 1024 + i] == side_pending(c@, dir, (real_h + 1) as nat)[i],
        final(buffer).faces@ == old(buffer).faces@ + side_emits(
            side_pending(c@, dir, real_h as nat),
            merged_side(c@, dir, real_h as int),
            dir,
            real_h as int,
            1024,
        ),
        layers_ok(final(layers)),
        forall|k: int|
            0 <= k < final(layers)@.len() && !((cur + dir) * 1024 <= k < (cur + dir) * 1024 + 1024) ==> #[trigger] final(layers)@[k]
                == old(layers)@[k],
        forall|i: int|
            0 <= i < 1024 ==> {
                &&& pending_ok(#[trigger] final(layers)@[(cur + dir) * 1024 + i], i % 32, real_h + 1)
                &&& side_cell_sound(c@, dir, real_h + 1, i / 32, i % 32, final(layers)@[(cur + dir) * 1024 + i])
            },
        buffer_ok(final(buffer)),
        faces_sound(c@, final(buffer).faces@),
        prefix_of(old(buffer).faces@, final(buffer).faces@),
        side_done(c@, final(buffer).faces@, final(layers)@, (cur + dir) * 1024, dir, real_h + 1),
        side_free(final(buffer).faces@, final(layers)@, (cur + dir) * 1024, dir, real_h + 1, 0, 1024),
        side_below(final(buffer).faces@, dir, real_h + 1),
        rows_apart(final(layers)@, (cur + dir) * 1024),
        faces_disjoint(final(buffer).faces@),
        added_dir(old(buffer).faces@, final(buffer).faces@, dir),
        final(buffer).faces@.len() <= old(buffer).faces@.len() + 1024,
{
    proof {
        assert forall|i: int| 0 <= i < 1024 implies #[trigger] layers@[(cur + dir) * 1024 + i] < 0x2_0000 by {
            lemma_plane_col(i / 32, i % 32);
            assert(layers@[slab_index(dir, cur as int, i / 32, i % 32)] == plane_value(c@, dir, real_h as int, i / 32, i % 32));
            lemma_plane_value_bound(c@, dir, real_h as int, i / 32, i % 32);
        }
    }
    merge_plane_rows(layers, cur + dir);
    let ghost merged = layers@;
    proof {
        assert forall|i: int| 0 <= i < 1024 implies side_cell_sound(c@, dir, real_h + 1, i / 32, i % 32, #[trigger] merged[(cur + dir) * 1024 + i]) by {
            let row = i / 32;
            let col = i % 32;
            lemma_plane_col(row, col);
            let rs = plane_row(old(layers)@, (cur + dir) as int, row);
            assert forall|j: int| 0 <= j < 32 implies #[trigger] rs[j] == plane_value(c@, dir, real_h as int, row, j) by {
                assert(old(layers)@[slab_index(dir, cur as int, row, j)] == plane_value(c@, dir, real_h as int, row, j));
            }
            assert(merged[(cur + dir) * 1024 + row * 32 + col] == merged_cell(rs, col));
            lemma_merged_side_sound(c@, dir, real_h as int, row, rs, col);
        }
        let top_base = (6 - cur + dir) * 1024;
        let base = (cur + dir) * 1024;
        assert forall|t: int, row: int, col: int|
            0 <= t <= real_h && 0 <= row < 32 && 0 <= col < 32 && #[trigger] plane_value(c@, dir, t, row, col) != 0 implies {
                ||| covered_by(old(buffer).faces@, dir, t, side_origin(dir, col, row).0, side_origin(dir, col, row).1)
                ||| exists|c0: int|
                    0 <= c0 < 32 && row * 32 + c0 >= 0 && #[trigger] pending_covers(old(layers)@[top_base + row * 32 + c0], real_h as int, c0, t, col)
                ||| exists|c0: int| 0 <= c0 < 32 && #[trigger] pending_covers(merged[base + row * 32 + c0], real_h + 1, c0, t, col)
            } by {
            if t == real_h {
                let rs = plane_row(old(layers)@, (cur + dir) as int, row);
                assert(rs[col] == old(layers)@[slab_index(dir, cur as int, row, col)]);
                lemma_run_head(rs, col);
                let j = run_head(rs, col);
                lemma_run_len_bound(rs, j);
                assert(old(layers)@[slab_index(dir, cur as int, row, j)] == plane_value(c@, dir, real_h as int, row, j));
                lemma_plane_value_bound(c@, dir, real_h as int, row, j);
                lemma_start_fields(rs[j] as int, run_len(rs, j));
                assert(merged[(cur + dir) * 1024 + row * 32 + j] == merged_cell(rs, j));
                assert(pending_covers(merged[base + row * 32 + j], real_h + 1, j, t, col));
            } else {
                if !covered_by(old(buffer).faces@, dir, t, side_origin(dir, col, row).0, side_origin(dir, col, row).1) {
                    let c0 = choose|c0: int| 0 <= c0 < 32 && #[trigger] pending_covers(old(layers)@[top_base + row * 32 + c0], real_h as int, c0, t, col);
                    assert(pending_covers(old(layers)@[top_base + row * 32 + c0], real_h as int, c0, t, col));
                }
            }
        }
        assert(side_progress(c@, old(buffer).faces@, merged, old(layers)@, base, top_base, dir, real_h as int, 0));
        let fs0 = old(buffer).faces@;
        assert forall|row: int, c0: int, t: int, col: int|
            0 <= row < 32 && 0 <= c0 < 32 && 0 <= row * 32 + c0 < 1024 && 0 <= t < 32 && 0 <= col < 32
                && #[trigger] pending_covers(merged[base + row * 32 + c0], real_h + 1, c0, t, col) implies !covered_by(
                fs0,
                dir,
                t,
                side_origin(dir, col, row).0,
                side_origin(dir, col, row).1,
            ) by {
            assert(pending_ok(merged[(cur + dir) * 1024 + (row * 32 + c0)], (row * 32 + c0) % 32, 1));
            lemma_side_origin_range(dir, col, row);
            if covered_by(fs0, dir, t, side_origin(dir, col, row).0, side_origin(dir, col, row).1) {
                let k = choose|k: int|
                    0 <= k < fs0.len() && fs0[k].dir == dir && #[trigger] covers(
                        fs0[k],
                        t,
                        side_origin(dir, col, row).0,
                        side_origin(dir, col, row).1,
                    );
            }
        }
        assert forall|row: int, c0: int, c1: int|
            0 <= row < 32 && 0 <= c0 < c1 < 32 && #[trigger] merged[base + row * 32 + c0] != 0 && #[trigger] merged[base
                + row * 32 + c1] != 0 implies c0 + cell_width(merged[base + row * 32 + c0]) <= c1 by {
            let rs = plane_row(old(layers)@, (cur + dir) as int, row);
            assert(merged[(cur + dir) * 1024 + row * 32 + c0] == merged_cell(rs, c0));
            assert(merged[(cur + dir) * 1024 + row * 32 + c1] == merged_cell(rs, c1));
            lemma_runs_apart(rs, c0, c1);
            lemma_run_len_bound(rs, c0);
            assert(rs[c0] == old(layers)@[slab_index(dir, cur as int, row, c0)]);
            lemma_plane_value_bound(c@, dir, real_h as int, row, c0);
            lemma_start_fields(rs[c0] as int, run_len(rs, c0));
        }
        assert forall|k: int| 0 <= k < 1024 implies cell_height(#[trigger] merged[base + k]) <= 1 by {
            assert(pending_ok(merged[(cur + dir) * 1024 + k], k % 32, 1));
        }
        assert(side_merge_apart(fs0, merged, old(layers)@, merged, base, top_base, dir, real_h as int, 0));
    }
    let ghost top_spec = side_pending(c@, dir, real_h as nat);
    let ghost cur_spec = merged_side(c@, dir, real_h as int);
    proof {
        assert forall|k: int| 0 <= k < 1024 implies #[trigger] merged[(cur + dir) * 1024 + k] == cur_spec[k] by {
            let row = k / 32;
            let col = k % 32;
            lemma_plane_col(row, col);
            let rs = plane_row(old(layers)@, (cur + dir) as int, row);
            assert forall|j: int| 0 <= j < 32 implies #[trigger] rs[j] == slab_row(c@, dir, real_h as int, row)[j] by {
                assert(old(layers)@[slab_index(dir, cur as int, row, j)] == plane_value(c@, dir, real_h as int, row, j));
            }
            assert(rs =~= slab_row(c@, dir, real_h as int, row));
            assert(merged[(cur + dir) * 1024 + row * 32 + col] == merged_cell(rs, col));
        }
    }
    let base = layers.plane_idx(cur + dir) as u32;
    let top_base = layers.plane_idx(6 - cur + dir) as u32;
    let mut i: u32 = 0;
    while i < 1024
        invariant
            layers_ok(layers),
            buffer_ok(buffer),
            faces_sound(c@, buffer.faces@),
            1 <= dir <= 4,
            cur == 0 || cur == 6,
            real_h < 32,
            base == (cur + dir) * 1024,
            top_base == (6 - cur + dir) * 1024,
            i <= 1024,
            forall|k: int|
                0 <= k < layers@.len() && !((cur + dir) * 1024 <= k < (cur + dir) * 1024 + 1024) ==> #[trigger] layers@[k]
                    == old(layers)@[k],
            forall|k: int| i <= k < 1024 ==> #[trigger] layers@[base + k] == merged[base + k],
            forall|k: int|
                0 <= k < 1024 ==> pending_ok(#[trigger] merged[base + k], k % 32, 1) && side_cell_sound(
                    c@,
                    dir,
                    real_h + 1,
                    k / 32,
                    k % 32,
                    merged[base + k],
                ),
            forall|k: int|
                0 <= k < i ==> pending_ok(#[trigger] layers@[base + k], k % 32, real_h + 1) && side_cell_sound(
                    c@,
                    dir,
                    real_h + 1,
                    k / 32,
                    k % 32,
                    layers@[base + k],
                ),
            forall|k: int|
                0 <= k < 1024 ==> {
                    &&& pending_ok(#[trigger] old(layers)@[(6 - cur + dir) * 1024 + k], k % 32, real_h as int)
                    &&& side_cell_sound(c@, dir, real_h as int, k / 32, k % 32, old(layers)@[(6 - cur + dir) * 1024 + k])
                },
            side_progress(c@, buffer.faces@, layers@, old(layers)@, base as int, top_base as int, dir, real_h as int, i as int),
            prefix_of(old(buffer).faces@, buffer.faces@),
            side_merge_apart(buffer.faces@, layers@, old(layers)@, merged, base as int, top_base as int, dir, real_h as int, i as int),
            added_dir(old(buffer).faces@, buffer.faces@, dir),
            top_spec == side_pending(c@, dir, real_h as nat),
            cur_spec == merged_side(c@, dir, real_h as int),
            forall|k: int| 0 <= k < 1024 ==> #[trigger] merged[base + k] == cur_spec[k],
            forall|k: int| 0 <= k < 1024 ==> #[trigger] old(layers)@[top_base + k] == top_spec[k],
            forall|k: int| 0 <= k < i ==> #[trigger] layers@[base + k] == side_pending(c@, dir, (real_h + 1) as nat)[k],
            buffer.faces@ == old(buffer).faces@ + side_emits(top_spec, cur_spec, dir, real_h as int, i as nat),
            buffer.faces@.len() <= old(buffer).faces@.len() + i,
        decreases 1024 - i,
    {
        let top = layers.get_idx(top_base + i);
        assert(top == old(layers)@[(6 - cur + dir) * 1024 + i]);
        let ghost e0 = side_emits(top_spec, cur_spec, dir, real_h as int, i as nat);
        let ghost e1 = side_emits(top_spec, cur_spec, dir, real_h as int, (i + 1) as nat);
        let ghost nxt = side_pending(c@, dir, (real_h + 1) as nat);
        proof {
            assert(top == top_spec[i as int]);
            assert(layers@[base + i] == cur_spec[i as int]);
            assert(nxt[i as int] == if stacks(top_spec[i as int], cur_spec[i as int]) {
                grown(cur_spec[i as int], top_spec[i as int])
            } else {
                cur_spec[i as int]
            });
        }
        if top != 0 {
            proof {
                lemma_cell_bits(top);
            }
            let top_h = top >> 25;
            let cur_v = layers.get_idx(base + i);
            proof {
                lemma_cell_key(top, cur_v);
            }
            if (top & 0x01FF_FFFF) == (cur_v & 0x01FF_FFFF) && top_h < 32 {
                proof {
                    lemma_cell_grow(cur_v, (top_h + 1) as u32);
                    let g = (cur_v & 0x01FF_FFFF) | (((top_h + 1) as u32) << 25);
                    assert(merged[base + i] == cur_v);
                    assert(side_cell_sound(c@, dir, real_h + 1, i as int / 32, i as int % 32, g)) by {
                        assert(cur_v != 0);
                        assert forall|t: int, k: int|
                            real_h + 1 - cell_height(g) <= t < real_h + 1 && i as int % 32 <= k < i as int % 32 + cell_width(g) implies #[trigger] plane_value(
                            c@,
                            dir,
                            t,
                            i as int / 32,
                            k,
                        ) == cell_payload(g) by {
                            if t < real_h {
                                assert(plane_value(c@, dir, t, i as int / 32, k) == cell_payload(top));
                            } else {
                                assert(plane_value(c@, dir, t, i as int / 32, k) == cell_payload(cur_v));
                            }
                        }
                    }
                }
                proof {
                    let g = (cur_v & 0x01FF_FFFF) | (((top_h + 1) as u32) << 25);
                    lemma_side_step_grow(c@, buffer.faces@, layers@, old(layers)@, base as int, top_base as int, dir, real_h as int, i as int, g);
                    lemma_side_apart_grow(buffer.faces@, layers@, old(layers)@, merged, base as int, top_base as int, dir, real_h as int, i as int, g);
                }
                layers.set_idx(base + i, (cur_v & 0x01FF_FFFF) | ((top_h + 1) << 25));
                proof {
                    assert(e1 =~= e0);
                    assert(layers@[base + i] == nxt[i as int]);
                }
            } else {
                proof {
                    lemma_index_bits(i);
                    lemma_plane_col((i / 32) as int, (i % 32) as int);
                    lemma_side_face_ok(
                        dir,
                        (i % 32) as int,
                        (i / 32) as int,
                        real_h - top_h,
                        cell_width(top),
                        top_h as int,
                        top & 0x1FFFF,
                    );
                    lemma_side_face_sound(
                        c@,
                        dir,
                        (i / 32) as int,
                        (i % 32) as int,
                        cell_width(top),
                        real_h - top_h,
                        top_h as int,
                        top & 0x1FFFF,
                    );
                }
                let (x, y) = unrotate(dir, i & 31, i >> 5);
                let ghost before = buffer.faces@;
                emit_rect(buffer, dir, real_h - top_h, x, y, (top >> 17) & 0xFF, top_h, top & 0x1FFFF);
                proof {
                    let f = buffer.faces@.last();
                    lemma_sound_push(c@, before, f);
                    assert forall|t: int, col: int|
                        pending_covers(top, real_h as int, i as int % 32, t, col) && 0 <= col < 32 implies #[trigger] covers(
                        f,
                        t,
                        side_origin(dir, col, i as int / 32).0,
                        side_origin(dir, col, i as int / 32).1,
                    ) by {
                        lemma_side_face_covers(dir, (i / 32) as int, (i % 32) as int, cell_width(top), real_h - top_h, top_h as int, top & 0x1FFFF, t, col);
                    }
                    lemma_side_step_emit(c@, before, layers@, old(layers)@, base as int, top_base as int, dir, real_h as int, i as int, f);
                    assert forall|t: int, x: int, y: int|
                        0 <= t < 32 && 0 <= x < 32 && 0 <= y < 32 && #[trigger] covers(f, t, x, y) implies {
                            &&& pending_covers(top, real_h as int, i as int % 32, t, plane_pos(dir, x, y).0)
                            &&& plane_pos(dir, x, y).1 == i as int / 32
                            &&& 0 <= plane_pos(dir, x, y).0 < 32
                            &&& side_origin(dir, plane_pos(dir, x, y).0, i as int / 32) == (x, y)
                        } by {
                        lemma_side_face_covers_only(dir, (i / 32) as int, (i % 32) as int, cell_width(top), real_h - top_h, top_h as int, top & 0x1FFFF, t, x, y);
                    }
                    lemma_added_dir_push(old(buffer).faces@, before, f, dir);
                    assert(f == side_rect(dir, real_h as int, i as int, top));
                    assert(e1 =~= e0 + seq![f]);
                    assert(buffer.faces@ =~= old(buffer).faces@ + e1);
                    assert(layers@[base + i] == nxt[i as int]);
                    lemma_side_apart_emit(before, layers@, old(layers)@, merged, base as int, top_base as int, dir, real_h as int, i as int, f);
                }
            }
        } else {
            proof {
                lemma_side_step_skip(c@, buffer.faces@, layers@, old(layers)@, base as int, top_base as int, dir, real_h as int, i as int);
                lemma_side_apart_skip(buffer.faces@, layers@, old(layers)@, merged, base as int, top_base as int, dir, real_h as int, i as int);
                assert(e1 =~= e0);
                assert(layers@[base + i] == nxt[i as int]);
            }
        }
        i += 1;
    }
    proof {
        lemma_side_progress_done(c@, buffer.faces@, layers@, old(layers)@, base as int, top_base as int, dir, real_h as int);
        assert forall|row: int, c0: int, c1: int|
            0 <= row < 32 && 0 <= c0 < c1 < 32 && #[trigger] layers@[base + row * 32 + c0] != 0 && #[trigger] layers@[base
                + row * 32 + c1] != 0 implies c0 + cell_width(layers@[base + row * 32 + c0]) <= c1 by {
            assert(cell_width(layers@[base + (row * 32 + c0)]) == cell_width(merged[base + (row * 32 + c0)]));
            assert(layers@[base + (row * 32 + c1)] != 0 <==> merged[base + (row * 32 + c1)] != 0);
            assert(layers@[base + (row * 32 + c0)] != 0 <==> merged[base + (row * 32 + c0)] != 0);
        }
    }
}

/// Merges the `UP` (`up_down == 0`) or `DOWN` (`up_down == 1`) plane of a
/// slab: runs within each row, then equal runs of consecutive rows, emitting
/// each rectangle when the next row does not continue it, and the open ones
/// after the last row.
#[verifier::rlimit(100)]
fn merge_flat_plane(layers: &Array3D, buffer: &mut FaceBuffer, up_down: u32, real_h: u32, c: Ghost<Seq<u32>>)
    requires
        layers_ok(layers),
        buffer_ok(old(buffer)),
        faces_sound(c@, old(buffer).faces@),
        flat_below(old(buffer).faces@, (up_down * 5) as u32, real_h as int, 0),
        faces_disjoint(old(buffer).faces@),
        up_down < 2,
        real_h < 32,
        forall|row: int, col: int|
            0 <= row < 32 && 0 <= col < 32 ==> #[trigger] layers@[up_down * 5 * 1024 + row * 32 + col] == plane_value(
                c@,
                (up_down * 5) as u32,
                real_h as int,
                row,
                col,
            ),
        old(buffer).faces@.len() < 0x1000_0000,
    ensures
        final(buffer).faces@ == old(buffer).faces@ + flat_faces(c@, (up_down * 5) as u32, real_h as int),
        buffer_ok(final(buffer)),
        faces_sound(c@, final(buffer).faces@),
        prefix_of(old(buffer).faces@, final(buffer).faces@),
        flat_below(final(buffer).faces@, (up_down * 5) as u32, real_h + 1, 0),
        faces_disjoint(final(buffer).faces@),
        added_dir(old(buffer).faces@, final(buffer).faces@, (up_down * 5) as u32),
        forall|r: int, col: int|
            0 <= r < 32 && 0 <= col < 32 && #[trigger] plane_value(c@, (up_down * 5) as u32, real_h as int, r, col) != 0
                ==> covered_by(
                final(buffer).faces@,
                (up_down * 5) as u32,
                real_h as int,
                plane_origin((up_down * 5) as u32, col, r).0,
                plane_origin((up_down * 5) as u32, col, r).1,
            ),
        final(buffer).faces@.len() <= old(buffer).faces@.len() + 1056,
{
    let dir = DIRECTION_UP + up_down * 5;
    let layer_idx = up_down * 5;
    let mut t_c: Vec<u32> = vec![0u32; 64];
    let mut current_row_idx: u32 = 0;
    let mut y: u32 = 0;
    while y < 32
        invariant
            forall|q: int| 0 <= q < 32 ==> #[trigger] t_c@[32 - (y % 2) * 32 + q] == flat_pending(c@, dir, real_h as int, y as nat)[q],
            buffer.faces@ == old(buffer).faces@ + flat_rows_faces(c@, dir, real_h as int, y as nat),
            layers_ok(layers),
            buffer_ok(buffer),
            faces_sound(c@, buffer.faces@),
            up_down < 2,
            dir == up_down * 5,
            layer_idx == up_down * 5,
            real_h < 32,
            forall|row: int, col: int|
                0 <= row < 32 && 0 <= col < 32 ==> #[trigger] layers@[up_down * 5 * 1024 + row * 32 + col] == plane_value(
                    c@,
                    dir,
                    real_h as int,
                    row,
                    col,
                ),
            t_c@.len() == 64,
            y <= 32,
            y > 0 ==> current_row_idx == 32 - (y % 2) * 32,
            forall|i: int|
                0 <= i < 32 ==> pending_ok(#[trigger] t_c@[32 - (y % 2) * 32 + i], i, y as int) && flat_cell_sound(
                    c@,
                    dir,
                    real_h as int,
                    y as int,
                    i,
                    t_c@[32 - (y % 2) * 32 + i],
                ),
            flat_done(c@, buffer.faces@, t_c@, 32 - (y % 2) * 32, dir, real_h as int, y as int),
            flat_free(buffer.faces@, t_c@, 32 - (y % 2) * 32, dir, real_h as int, y as int, 0, 32),
            flat_below(buffer.faces@, dir, real_h as int, y as int),
            row_apart(t_c@, 32 - (y % 2) * 32),
            faces_disjoint(buffer.faces@),
            added_dir(old(buffer).faces@, buffer.faces@, dir),
            prefix_of(old(buffer).faces@, buffer.faces@),
            buffer.faces@.len() <= old(buffer).faces@.len() + 32 * y,
            old(buffer).faces@.len() < 0x1000_0000,
        decreases 32 - y,
    {
        let ghost before = buffer.faces@;
        current_row_idx = merge_flat_row(layers, buffer, &mut t_c, up_down, real_h, y, c, Ghost(old(buffer).faces@));
        proof {
            assert(flat_rows_faces(c@, dir, real_h as int, (y + 1) as nat) == flat_rows_faces(c@, dir, real_h as int, y as nat)
                + flat_emits(
                flat_pending(c@, dir, real_h as int, y as nat),
                flat_merged_row(c@, dir, real_h as int, y as int),
                dir,
                real_h as int,
                y as int,
                32,
            ));
            assert(buffer.faces@ =~= old(buffer).faces@ + flat_rows_faces(c@, dir, real_h as int, (y + 1) as nat));
        }
        y += 1;
    }
    proof {
        assert forall|r: int, col: int|
            0 <= r < 32 && 0 <= col < 32 && #[trigger] plane_value(c@, dir, real_h as int, r, col) != 0 implies {
                ||| covered_by(buffer.faces@, dir, real_h as int, plane_origin(dir, col, r).0, plane_origin(dir, col, r).1)
                ||| exists|c0: int| 0 <= c0 < 32 && c0 >= 0 && #[trigger] pending_covers(t_c@[32 + c0], 32, c0, r, col)
            } by {
            if !covered_by(buffer.faces@, dir, real_h as int, plane_origin(dir, col, r).0, plane_origin(dir, col, r).1) {
                assert(y == 32);
                let c0 = choose|c0: int| 0 <= c0 < 32 && #[trigger] pending_covers(t_c@[32 - (y % 2) * 32 + c0], y as int, c0, r, col);
                assert(pending_covers(t_c@[32 + c0], 32, c0, r, col));
            }
        }
        assert(flat_flush_progress(c@, buffer.faces@, t_c@, 32, dir, real_h as int, 0));
        assert(y == 32);
        assert(flat_free(buffer.faces@, t_c@, 32, dir, real_h as int, 32, 0, 32));
        assert(row_apart(t_c@, 32));
        assert(flat_below(buffer.faces@, dir, real_h + 1, 0));
        assert forall|q: int| 0 <= q < 32 implies #[trigger] t_c@[32 + q] == flat_pending(c@, dir, real_h as int, 32)[q] by {
            assert(t_c@[32 - (y % 2) * 32 + q] == flat_pending(c@, dir, real_h as int, y as nat)[q]);
        }
        assert(buffer.faces@ =~= old(buffer).faces@ + flat_rows_faces(c@, dir, real_h as int, 32) + flat_flush(
            flat_pending(c@, dir, real_h as int, 32),
            dir,
            real_h as int,
            0,
        ));
    }
    let mut i: u32 = 0;
    while i < 32
        invariant
            forall|q: int| 0 <= q < 32 ==> #[trigger] t_c@[32 + q] == flat_pending(c@, dir, real_h as int, 32)[q],
            buffer.faces@ == old(buffer).faces@ + flat_rows_faces(c@, dir, real_h as int, 32) + flat_flush(
                flat_pending(c@, dir, real_h as int, 32),
                dir,
                real_h as int,
                i as nat,
            ),
            buffer_ok(buffer),
            faces_sound(c@, buffer.faces@),
            t_c@.len() == 64,
            current_row_idx == 32,
            dir == up_down * 5,
            up_down < 2,
            real_h < 32,
            i <= 32,
            forall|k: int|
                0 <= k < 32 ==> pending_ok(#[trigger] t_c@[current_row_idx + k], k, 32) && flat_cell_sound(
                    c@,
                    dir,
                    real_h as int,
                    32,
                    k,
                    t_c@[current_row_idx + k],
                ),
            flat_flush_progress(c@, buffer.faces@, t_c@, 32, dir, real_h as int, i as int),
            flat_free(buffer.faces@, t_c@, 32, dir, real_h as int, 32, i as int, 32),
            row_apart(t_c@, 32),
            faces_disjoint(buffer.faces@),
            flat_below(buffer.faces@, dir, real_h + 1, 0),
            added_dir(old(buffer).faces@, buffer.faces@, dir),
            prefix_of(old(buffer).faces@, buffer.faces@),
            buffer.faces@.len() <= old(buffer).faces@.len() + 1024 + i,
        decreases 32 - i,
    {
        let top = t_c[(current_row_idx + i) as usize];
        let ghost p = flat_pending(c@, dir, real_h as int, 32);
        let ghost g = old(buffer).faces@ + flat_rows_faces(c@, dir, real_h as int, 32);
        let ghost e0 = flat_flush(p, dir, real_h as int, i as nat);
        let ghost e1 = flat_flush(p, dir, real_h as int, (i + 1) as nat);
        assert(top == p[i as int]);
        if top != 0 {
            proof {
                lemma_cell_bits(top);
            }
            let top_h = top >> 25;
            let top_w = top >> 17 & 0xFF;
            let y = if up_down == 0 { 32 - top_h } else { 31 - (32 - top_h) };
            proof {
                lemma_flat_face_ok(dir, real_h as int, i as int, 32 - top_h, top_w as int, top_h as int, top & 0x1FFFF);
                lemma_flat_face_sound(c@, dir, real_h as int, 32 - top_h, i as int, top_w as int, top_h as int, top & 0x1FFFF);
            }
            let ghost before = buffer.faces@;
            emit_rect(buffer, dir, real_h, i, y, top_w, top_h, top & 0x1FFFF);
            proof {
                let f = buffer.faces@.last();
                lemma_sound_push(c@, before, f);
                lemma_prefix_push(old(buffer).faces@, before, f);
                assert forall|r: int, col: int|
                    pending_covers(t_c@[32 + i], 32, i as int, r, col) && 0 <= col < 32 implies #[trigger] covered_by(
                    buffer.faces@,
                    dir,
                    real_h as int,
                    plane_origin(dir, col, r).0,
                    plane_origin(dir, col, r).1,
                ) by {
                    lemma_flat_face_covers(dir, real_h as int, 32 - top_h, i as int, top_w as int, top_h as int, top & 0x1FFFF, r, col);
                    lemma_covered_last(before, f, real_h as int, plane_origin(dir, col, r).0, plane_origin(dir, col, r).1);
                }
                lemma_flat_flush_step(c@, before, buffer.faces@, t_c@, 32, dir, real_h as int, i as int);
                assert(f == flat_rect(dir, real_h as int, 32, i as int, top));
                assert(e1 =~= e0 + seq![f]);
                assert(buffer.faces@ =~= g + e1);
                lemma_added_dir_push(old(buffer).faces@, before, f, dir);
                assert forall|tt: int, x: int, yy: int|
                    0 <= tt < 32 && 0 <= x < 32 && 0 <= yy < 32 && #[trigger] covers(f, tt, x, yy) implies {
                        &&& tt == real_h
                        &&& pending_covers(t_c@[32 + i], 32, i as int, plane_pos(dir, x, yy).1, plane_pos(dir, x, yy).0)
                        &&& 0 <= plane_pos(dir, x, yy).0 < 32
                        &&& 0 <= plane_pos(dir, x, yy).1 < 32
                        &&& plane_origin(dir, plane_pos(dir, x, yy).0, plane_pos(dir, x, yy).1) == (x, yy)
                    } by {
                    lemma_flat_face_covers_only(dir, real_h as int, 32 - top_h, i as int, top_w as int, top_h as int, top & 0x1FFFF, tt, x, yy);
                }
                lemma_flat_flush_apart(before, t_c@, 32, dir, real_h as int, i as int, f);
                let fs1 = buffer.faces@;
                assert forall|k: int, tt: int, x: int, yy: int|
                    0 <= k < fs1.len() && fs1[k].dir == dir && 0 <= tt < 32 && 0 <= x < 32 && 0 <= yy < 32 && #[trigger] covers(
                        fs1[k],
                        tt,
                        x,
                        yy,
                    ) implies tt < real_h + 1 || (tt == real_h + 1 && plane_pos(dir, x, yy).1 < 0) by {
                    if k < before.len() {
                        assert(fs1[k] == before[k]);
                    }
                }
            }
        } else {
            proof {
                lemma_prefix_refl(buffer.faces@);
                lemma_flat_flush_step(c@, buffer.faces@, buffer.faces@, t_c@, 32, dir, real_h as int, i as int);
                assert(e1 =~= e0);
                assert(flat_free(buffer.faces@, t_c@, 32, dir, real_h as int, 32, i + 1, 32));
            }
        }
        i += 1;
    }
    proof {
        assert forall|r: int, col: int|
            0 <= r < 32 && 0 <= col < 32 && #[trigger] plane_value(c@, dir, real_h as int, r, col) != 0 implies covered_by(
            buffer.faces@,
            dir,
            real_h as int,
            plane_origin(dir, col, r).0,
            plane_origin(dir, col, r).1,
        ) by {
            if !covered_by(buffer.faces@, dir, real_h as int, plane_origin(dir, col, r).0, plane_origin(dir, col, r).1) {
                let c0 = choose|c0: int| 0 <= c0 < 32 && c0 >= 32 && #[trigger] pending_covers(t_c@[32 + c0], 32, c0, r, col);
                assert(false);
            }
        }
    }
    proof {
        assert(buffer.faces@ =~= old(buffer).faces@ + flat_faces(c@, dir, real_h as int));
    }
}

/// Stacks column `i` of the merged row onto the pending row above it: the
/// cell below takes the pending rectangle over, or the pending rectangle is emitted.
#[verifier::rlimit(100)]
#[verifier::spinoff_prover]
fn stack_flat_column(
    t_c: &mut Vec<u32>,
    buffer: &mut FaceBuffer,
    up_down: u32,
    dir: u32,
    real_h: u32,
    y: u32,
    i: u32,
    current_row_idx: u32,
    top_row_idx: u32,
    c: Ghost<Seq<u32>>,
    merged_g: Ghost<Seq<u32>>,
    top_spec_g: Ghost<Seq<u32>>,
    cur_spec_g: Ghost<Seq<u32>>,
    fs_in_g: Ghost<Seq<Face>>,
    fs_start: Ghost<Seq<Face>>,
)
    requires
        top_spec_g@ == flat_pending(c@, dir, real_h as int, y as nat),
        cur_spec_g@ == flat_merged_row(c@, dir, real_h as int, y as int),
        forall|k: int| 0 <= k < 32 ==> #[trigger] merged_g@[current_row_idx + k] == cur_spec_g@[k],
        forall|k: int| 0 <= k < 32 ==> #[trigger] merged_g@[top_row_idx + k] == top_spec_g@[k],
        forall|k: int| 0 <= k < i ==> #[trigger] old(t_c)@[current_row_idx + k] == flat_pending(c@, dir, real_h as int, (y + 1) as nat)[k],
        old(buffer).faces@ == fs_in_g@ + flat_emits(top_spec_g@, cur_spec_g@, dir, real_h as int, y as int, i as nat),
        buffer_ok(old(buffer)),
        faces_sound(c@, old(buffer).faces@),
        old(t_c)@.len() == 64,
        merged_g@.len() == 64,
        current_row_idx == (y % 2) * 32,
        top_row_idx == 32 - current_row_idx,
        dir == up_down * 5,
        up_down < 2,
        real_h < 32,
        y < 32,
        i < 32,
        forall|k: int| 0 <= k < 32 ==> #[trigger] old(t_c)@[top_row_idx + k] == merged_g@[top_row_idx + k],
        forall|k: int|
            0 <= k < 32 ==> pending_ok(#[trigger] merged_g@[top_row_idx + k], k, y as int) && flat_cell_sound(
                c@,
                dir,
                real_h as int,
                y as int,
                k,
                merged_g@[top_row_idx + k],
            ),
        forall|k: int| i <= k < 32 ==> #[trigger] old(t_c)@[current_row_idx + k] == merged_g@[current_row_idx + k],
        forall|k: int|
            0 <= k < 32 ==> pending_ok(#[trigger] merged_g@[current_row_idx + k], k, 1) && flat_cell_sound(
                c@,
                dir,
                real_h as int,
                y + 1,
                k,
                merged_g@[current_row_idx + k],
            ),
        forall|k: int|
            0 <= k < i ==> pending_ok(#[trigger] old(t_c)@[current_row_idx + k], k, y + 1) && flat_cell_sound(
                c@,
                dir,
                real_h as int,
                y + 1,
                k,
                old(t_c)@[current_row_idx + k],
            ),
        flat_progress(c@, old(buffer).faces@, old(t_c)@, merged_g@, current_row_idx as int, top_row_idx as int, dir, real_h as int, y as int, i as int),
        flat_merge_apart(old(buffer).faces@, old(t_c)@, merged_g@, merged_g@, current_row_idx as int, top_row_idx as int, dir, real_h as int, y as int, i as int),
        added_dir(fs_start@, old(buffer).faces@, dir),
        prefix_of(fs_start@, old(buffer).faces@),
        old(buffer).faces@.len() <= fs_start@.len() + 32 * y + i,
    ensures
        top_spec_g@ == flat_pending(c@, dir, real_h as int, y as nat),
        cur_spec_g@ == flat_merged_row(c@, dir, real_h as int, y as int),
        forall|k: int| 0 <= k < 32 ==> #[trigger] merged_g@[current_row_idx + k] == cur_spec_g@[k],
        forall|k: int| 0 <= k < 32 ==> #[trigger] merged_g@[top_row_idx + k] == top_spec_g@[k],
        forall|k: int| 0 <= k < (i + 1) ==> #[trigger] final(t_c)@[current_row_idx + k] == flat_pending(c@, dir, real_h as int, (y + 1) as nat)[k],
        final(buffer).faces@ == fs_in_g@ + flat_emits(top_spec_g@, cur_spec_g@, dir, real_h as int, y as int, (i + 1) as nat),
        buffer_ok(final(buffer)),
        faces_sound(c@, final(buffer).faces@),
        final(t_c)@.len() == 64,
        merged_g@.len() == 64,
        current_row_idx == (y % 2) * 32,
        top_row_idx == 32 - current_row_idx,
        dir == up_down * 5,
        up_down < 2,
        real_h < 32,
        y < 32,
        forall|k: int| 0 <= k < 32 ==> #[trigger] final(t_c)@[top_row_idx + k] == merged_g@[top_row_idx + k],
        forall|k: int|
            0 <= k < 32 ==> pending_ok(#[trigger] merged_g@[top_row_idx + k], k, y as int) && flat_cell_sound(
                c@,
                dir,
                real_h as int,
                y as int,
                k,
                merged_g@[top_row_idx + k],
            ),
        forall|k: int| (i + 1) <= k < 32 ==> #[trigger] final(t_c)@[current_row_idx + k] == merged_g@[current_row_idx + k],
        forall|k: int|
            0 <= k < 32 ==> pending_ok(#[trigger] merged_g@[current_row_idx + k], k, 1) && flat_cell_sound(
                c@,
                dir,
                real_h as int,
                y + 1,
                k,
                merged_g@[current_row_idx + k],
            ),
        forall|k: int|
            0 <= k < (i + 1) ==> pending_ok(#[trigger] final(t_c)@[current_row_idx + k], k, y + 1) && flat_cell_sound(
                c@,
                dir,
                real_h as int,
                y + 1,
                k,
                final(t_c)@[current_row_idx + k],
            ),
        flat_progress(c@, final(buffer).faces@, final(t_c)@, merged_g@, current_row_idx as int, top_row_idx as int, dir, real_h as int, y as int, (i + 1) as int),
        flat_merge_apart(final(buffer).faces@, final(t_c)@, merged_g@, merged_g@, current_row_idx as int, top_row_idx as int, dir, real_h as int, y as int, (i + 1) as int),
        added_dir(fs_start@, final(buffer).faces@, dir),
        prefix_of(fs_start@, final(buffer).faces@),
        final(buffer).faces@.len() <= fs_start@.len() + 32 * y + (i + 1),
{
    let ghost merged = merged_g@;
    let ghost top_spec = top_spec_g@;
    let ghost cur_spec = cur_spec_g@;
    let ghost fs_in = fs_in_g@;
    let top = t_c[(top_row_idx + i) as usize];
    let ghost e0 = flat_emits(top_spec, cur_spec, dir, real_h as int, y as int, i as nat);
    let ghost e1 = flat_emits(top_spec, cur_spec, dir, real_h as int, y as int, (i + 1) as nat);
    let ghost nxt = flat_pending(c@, dir, real_h as int, (y + 1) as nat);
    proof {
        assert(top == top_spec[i as int]);
        assert(t_c@[current_row_idx + i] == cur_spec[i as int]);
        assert(nxt[i as int] == if joins(top_spec[i as int], cur_spec[i as int]) {
            grown(cur_spec[i as int], top_spec[i as int])
        } else {
            cur_spec[i as int]
        });
    }
    if top != 0 {
        proof {
            lemma_cell_bits(top);
        }
        let top_h = top >> 25;
        let cur = t_c[(current_row_idx + i) as usize];
        proof {
            lemma_cell_key(top, cur);
        }
        if (top & 0x01FF_FFFF) == (cur & 0x01FF_FFFF) {
            proof {
                lemma_cell_grow(cur, (top_h + 1) as u32);
                let g = (cur & 0x01FF_FFFF) | (((top_h + 1) as u32) << 25);
                assert(flat_cell_sound(c@, dir, real_h as int, y + 1, i as int, g)) by {
                    assert(cur != 0);
                    assert forall|r: int, k: int|
                        y + 1 - cell_height(g) <= r < y + 1 && i <= k < i + cell_width(g) implies #[trigger] plane_value(
                        c@,
                        dir,
                        real_h as int,
                        r,
                        k,
                    ) == cell_payload(g) by {
                        if r < y {
                            assert(plane_value(c@, dir, real_h as int, r, k) == cell_payload(top));
                        } else {
                            assert(plane_value(c@, dir, real_h as int, r, k) == cell_payload(cur));
                        }
                    }
                }
            }
            proof {
                let g = (cur & 0x01FF_FFFF) | (((top_h + 1) as u32) << 25);
                lemma_flat_step_grow(c@, buffer.faces@, t_c@, merged, current_row_idx as int, top_row_idx as int, dir, real_h as int, y as int, i as int, g);
                lemma_flat_apart_grow(buffer.faces@, t_c@, merged, merged, current_row_idx as int, top_row_idx as int, dir, real_h as int, y as int, i as int, g);
            }
            t_c[(current_row_idx + i) as usize] = (cur & 0x01FF_FFFF) | ((top_h + 1) << 25);
            proof {
                assert(e1 =~= e0);
                assert(t_c@[current_row_idx + i] == nxt[i as int]);
            }
        } else {
            let top_w = (top >> 17) & 0xFF;
            let yy = if up_down == 0 { y - top_h } else { 31 - (y - top_h) };
            proof {
                lemma_flat_face_ok(dir, real_h as int, i as int, y - top_h, top_w as int, top_h as int, top & 0x1FFFF);
                lemma_flat_face_sound(c@, dir, real_h as int, y - top_h, i as int, top_w as int, top_h as int, top & 0x1FFFF);
            }
            let ghost before = buffer.faces@;
            emit_rect(buffer, dir, real_h, i, yy, top_w, top_h, top & 0x1FFFF);
            proof {
                let f = buffer.faces@.last();
                lemma_sound_push(c@, before, f);
                lemma_prefix_push(fs_start@, before, f);
                assert forall|r: int, col: int|
                    pending_covers(top, y as int, i as int, r, col) && 0 <= col < 32 implies #[trigger] covers(
                    f,
                    real_h as int,
                    plane_origin(dir, col, r).0,
                    plane_origin(dir, col, r).1,
                ) by {
                    lemma_flat_face_covers(dir, real_h as int, y - top_h, i as int, top_w as int, top_h as int, top & 0x1FFFF, r, col);
                }
                lemma_flat_step_emit(c@, before, t_c@, merged, current_row_idx as int, top_row_idx as int, dir, real_h as int, y as int, i as int, f);
                lemma_added_dir_push(fs_start@, before, f, dir);
                assert forall|tt: int, x: int, yy: int|
                    0 <= tt < 32 && 0 <= x < 32 && 0 <= yy < 32 && #[trigger] covers(f, tt, x, yy) implies {
                        &&& tt == real_h
                        &&& pending_covers(merged[top_row_idx + i], y as int, i as int, plane_pos(dir, x, yy).1, plane_pos(dir, x, yy).0)
                        &&& 0 <= plane_pos(dir, x, yy).0 < 32
                        &&& 0 <= plane_pos(dir, x, yy).1 < 32
                        &&& plane_origin(dir, plane_pos(dir, x, yy).0, plane_pos(dir, x, yy).1) == (x, yy)
                    } by {
                    lemma_flat_face_covers_only(dir, real_h as int, y - top_h, i as int, top_w as int, top_h as int, top & 0x1FFFF, tt, x, yy);
                }
                assert(f == flat_rect(dir, real_h as int, y as int, i as int, top));
                assert(e1 =~= e0 + seq![f]);
                assert(buffer.faces@ =~= fs_in + e1);
                assert(t_c@[current_row_idx + i] == nxt[i as int]);
                lemma_flat_apart_emit(before, t_c@, merged, merged, current_row_idx as int, top_row_idx as int, dir, real_h as int, y as int, i as int, f);
            }
        }
    } else {
        proof {
            lemma_flat_step_skip(c@, buffer.faces@, t_c@, merged, current_row_idx as int, top_row_idx as int, dir, real_h as int, y as int, i as int);
            lemma_flat_apart_skip(buffer.faces@, t_c@, merged, merged, current_row_idx as int, top_row_idx as int, dir, real_h as int, y as int, i as int);
            assert(e1 =~= e0);
            assert(t_c@[current_row_idx + i] == nxt[i as int]);
        }
    }
}

/// Merges row `y` of a flat plane into the pending row above it, emitting the
/// rectangles that it does not continue; returns where the row now pending starts.
#[verifier::rlimit(100)]
#[verifier::spinoff_prover]
fn merge_flat_row(
    layers: &Array3D,
    buffer: &mut FaceBuffer,
    t_c: &mut Vec<u32>,
    up_down: u32,
    real_h: u32,
    y: u32,
    c: Ghost<Seq<u32>>,
    fs_start: Ghost<Seq<Face>>,
) -> (current_row_idx: u32)
    requires
        layers_ok(layers),
        buffer_ok(old(buffer)),
        faces_sound(c@, old(buffer).faces@),
        up_down < 2,
        real_h < 32,
        y < 32,
        forall|row: int, col: int|
            0 <= row < 32 && 0 <= col < 32 ==> #[trigger] layers@[up_down * 5 * 1024 + row * 32 + col] == plane_value(
                c@,
                (up_down * 5) as u32,
                real_h as int,
                row,
                col,
            ),
        old(t_c)@.len() == 64,
        forall|k: int| 0 <= k < 32 ==> #[trigger] old(t_c)@[32 - (y % 2) * 32 + k] == flat_pending(c@, (up_down * 5) as u32, real_h as int, y as nat)[k],
        forall|i: int|
            0 <= i < 32 ==> pending_ok(#[trigger] old(t_c)@[32 - (y % 2) * 32 + i], i, y as int) && flat_cell_sound(
                c@,
                (up_down * 5) as u32,
                real_h as int,
                y as int,
                i,
                old(t_c)@[32 - (y % 2) * 32 + i],
            ),
        flat_done(c@, old(buffer).faces@, old(t_c)@, 32 - (y % 2) * 32, (up_down * 5) as u32, real_h as int, y as int),
        flat_free(old(buffer).faces@, old(t_c)@, 32 - (y % 2) * 32, (up_down * 5) as u32, real_h as int, y as int, 0, 32),
        flat_below(old(buffer).faces@, (up_down * 5) as u32, real_h as int, y as int),
        row_apart(old(t_c)@, 32 - (y % 2) * 32),
        faces_disjoint(old(buffer).faces@),
        added_dir(fs_start@, old(buffer).faces@, (up_down * 5) as u32),
        prefix_of(fs_start@, old(buffer).faces@),
        old(buffer).faces@.len() <= fs_start@.len() + 32 * y,
        fs_start@.len() < 0x1000_0000,
    ensures
        forall|k: int|
            0 <= k < 32 ==> #[trigger] final(t_c)@[32 - ((y + 1) % 2) * 32 + k] == flat_pending(c@, (up_down * 5) as u32, real_h as int, (y + 1) as nat)[k],
        final(buffer).faces@ == old(buffer).faces@ + flat_emits(
            flat_pending(c@, (up_down * 5) as u32, real_h as int, y as nat),
            flat_merged_row(c@, (up_down * 5) as u32, real_h as int, y as int),
            (up_down * 5) as u32,
            real_h as int,
            y as int,
            32,
        ),
        current_row_idx == 32 - ((y + 1) % 2) * 32,
        buffer_ok(final(buffer)),
        faces_sound(c@, final(buffer).faces@),
        final(t_c)@.len() == 64,
        forall|i: int|
            0 <= i < 32 ==> pending_ok(#[trigger] final(t_c)@[32 - ((y + 1) % 2) * 32 + i], i, y + 1) && flat_cell_sound(
                c@,
                (up_down * 5) as u32,
                real_h as int,
                y + 1,
                i,
                final(t_c)@[32 - ((y + 1) % 2) * 32 + i],
            ),
        flat_done(c@, final(buffer).faces@, final(t_c)@, 32 - ((y + 1) % 2) * 32, (up_down * 5) as u32, real_h as int, y + 1),
        flat_free(final(buffer).faces@, final(t_c)@, 32 - ((y + 1) % 2) * 32, (up_down * 5) as u32, real_h as int, y + 1, 0, 32),
        flat_below(final(buffer).faces@, (up_down * 5) as u32, real_h as int, y + 1),
        row_apart(final(t_c)@, 32 - ((y + 1) % 2) * 32),
        faces_disjoint(final(buffer).faces@),
        added_dir(fs_start@, final(buffer).faces@, (up_down * 5) as u32),
        prefix_of(fs_start@, final(buffer).faces@),
        final(buffer).faces@.len() <= fs_start@.len() + 32 * (y + 1),
{
    let dir = DIRECTION_UP + up_down * 5;
    let layer_idx = up_down * 5;
    proof {
        lemma_index_bits(y);
    }
    let current_row_idx: u32 = (y & 1) * 32;
    let top_row_idx = 32 - current_row_idx;
    let row_idx = layers.row_idx(layer_idx, y) as u32;
    let ghost head = t_c@;
    let mut i: u32 = 0;
    while i < 32
        invariant
            layers_ok(layers),
            t_c@.len() == 64,
            current_row_idx == (y % 2) * 32,
            top_row_idx == 32 - current_row_idx,
            row_idx == up_down * 5 * 1024 + y * 32,
            y < 32,
            up_down < 2,
            dir == up_down * 5,
            i <= 32,
            forall|row: int, col: int|
                0 <= row < 32 && 0 <= col < 32 ==> #[trigger] layers@[up_down * 5 * 1024 + row * 32 + col]
                    == plane_value(c@, dir, real_h as int, row, col),
            forall|k: int| 0 <= k < i ==> #[trigger] t_c@[current_row_idx + k] == plane_value(c@, dir, real_h as int, y as int, k),
            head.len() == 64,
            forall|k: int| 0 <= k < 32 ==> #[trigger] t_c@[top_row_idx + k] == head[top_row_idx + k],
            forall|k: int|
                0 <= k < 32 ==> pending_ok(#[trigger] t_c@[top_row_idx + k], k, y as int) && flat_cell_sound(
                    c@,
                    dir,
                    real_h as int,
                    y as int,
                    k,
                    t_c@[top_row_idx + k],
                ),
        decreases 32 - i,
    {
        assert(layers@[up_down * 5 * 1024 + y * 32 + i] == plane_value(c@, dir, real_h as int, y as int, i as int));
        t_c[(current_row_idx + i) as usize] = layers.get_idx(row_idx + i);
        i += 1;
    }
    let ghost row_vals = t_c@.subrange(current_row_idx as int, current_row_idx + 32);
    assert forall|k: int| current_row_idx <= k < current_row_idx + 32 implies #[trigger] t_c@[k] < 0x2_0000 by {
        assert(t_c@[current_row_idx + (k - current_row_idx)] == plane_value(c@, dir, real_h as int, y as int, k - current_row_idx));
        lemma_plane_value_bound(c@, dir, real_h as int, y as int, k - current_row_idx);
    }
    assert forall|j: int| 0 <= j < 32 implies #[trigger] row_vals[j] == plane_value(c@, dir, real_h as int, y as int, j) by {
        assert(t_c@[current_row_idx + j] == plane_value(c@, dir, real_h as int, y as int, j));
    }
    merge_row(t_c, current_row_idx as usize);
    let ghost merged = t_c@;
    proof {
        assert forall|k: int| 0 <= k < 32 implies #[trigger] merged[top_row_idx + k] == head[top_row_idx + k] by {
            assert(t_c@[top_row_idx + k] == head[top_row_idx + k]);
        }
        lemma_flat_row_start(
            c@,
            buffer.faces@,
            head,
            merged,
            row_vals,
            current_row_idx as int,
            top_row_idx as int,
            dir,
            real_h as int,
            y as int,
        );
    }
    let ghost top_spec = flat_pending(c@, dir, real_h as int, y as nat);
    let ghost cur_spec = flat_merged_row(c@, dir, real_h as int, y as int);
    proof {
        assert(row_vals =~= slab_row(c@, dir, real_h as int, y as int));
        assert forall|k: int| 0 <= k < 32 implies #[trigger] merged[current_row_idx + k] == cur_spec[k] by {}
        assert forall|k: int| 0 <= k < 32 implies #[trigger] merged[top_row_idx + k] == top_spec[k] by {
            assert(t_c@[top_row_idx + k] == head[top_row_idx + k]);
        }
    }
    let ghost fs_in = buffer.faces@;
    let mut i: u32 = 0;
    while i < 32
        invariant
            fs_in == old(buffer).faces@,
            top_spec == flat_pending(c@, dir, real_h as int, y as nat),
            cur_spec == flat_merged_row(c@, dir, real_h as int, y as int),
            forall|k: int| 0 <= k < 32 ==> #[trigger] merged[current_row_idx + k] == cur_spec[k],
            forall|k: int| 0 <= k < 32 ==> #[trigger] merged[top_row_idx + k] == top_spec[k],
            forall|k: int| 0 <= k < i ==> #[trigger] t_c@[current_row_idx + k] == flat_pending(c@, dir, real_h as int, (y + 1) as nat)[k],
            buffer.faces@ == fs_in + flat_emits(top_spec, cur_spec, dir, real_h as int, y as int, i as nat),
            buffer_ok(buffer),
            faces_sound(c@, buffer.faces@),
            t_c@.len() == 64,
            merged.len() == 64,
            current_row_idx == (y % 2) * 32,
            top_row_idx == 32 - current_row_idx,
            dir == up_down * 5,
            up_down < 2,
            real_h < 32,
            y < 32,
            i <= 32,
            forall|k: int| 0 <= k < 32 ==> #[trigger] t_c@[top_row_idx + k] == merged[top_row_idx + k],
            forall|k: int|
                0 <= k < 32 ==> pending_ok(#[trigger] merged[top_row_idx + k], k, y as int) && flat_cell_sound(
                    c@,
                    dir,
                    real_h as int,
                    y as int,
                    k,
                    merged[top_row_idx + k],
                ),
            forall|k: int| i <= k < 32 ==> #[trigger] t_c@[current_row_idx + k] == merged[current_row_idx + k],
            forall|k: int|
                0 <= k < 32 ==> pending_ok(#[trigger] merged[current_row_idx + k], k, 1) && flat_cell_sound(
                    c@,
                    dir,
                    real_h as int,
                    y + 1,
                    k,
                    merged[current_row_idx + k],
                ),
            forall|k: int|
                0 <= k < i ==> pending_ok(#[trigger] t_c@[current_row_idx + k], k, y + 1) && flat_cell_sound(
                    c@,
                    dir,
                    real_h as int,
                    y + 1,
                    k,
                    t_c@[current_row_idx + k],
                ),
            flat_progress(c@, buffer.faces@, t_c@, merged, current_row_idx as int, top_row_idx as int, dir, real_h as int, y as int, i as int),
            flat_merge_apart(buffer.faces@, t_c@, merged, merged, current_row_idx as int, top_row_idx as int, dir, real_h as int, y as int, i as int),
            added_dir(fs_start@, buffer.faces@, dir),
            prefix_of(fs_start@, buffer.faces@),
            buffer.faces@.len() <= fs_start@.len() + 32 * y + i,
        decreases 32 - i,
    {
        stack_flat_column(
            t_c,
            buffer,
            up_down,
            dir,
            real_h,
            y,
            i,
            current_row_idx,
            top_row_idx,
            c,
            Ghost(merged),
            Ghost(top_spec),
            Ghost(cur_spec),
            Ghost(fs_in),
            fs_start,
        );
        i += 1;
    }
    proof {
        lemma_flat_row_end(c@, buffer.faces@, t_c@, merged, current_row_idx as int, top_row_idx as int, dir, real_h as int, y as int);
        lemma_index_bits((y + 1) as u32);
        assert(32 - ((y + 1) % 2) * 32 == current_row_idx);
    }
    current_row_idx
}

/// Emits every rectangle still open in a side plane after the last slab.
#[verifier::rlimit(50)]
fn flush_side_plane(layers: &Array3D, buffer: &mut FaceBuffer, dir: u32, cur: u32, c: Ghost<Seq<u32>>)
    requires
        forall|i: int| 0 <= i < 1024 ==> #[trigger] layers@[(cur + dir) * 1024 + i] == side_pending(c@, dir, 32)[i],
        layers_ok(layers),
        buffer_ok(old(buffer)),
        faces_sound(c@, old(buffer).faces@),
        1 <= dir <= 4,
        cur == 0 || cur == 6,
        forall|i: int|
            0 <= i < 1024 ==> pending_ok(#[trigger] layers@[(cur + dir) * 1024 + i], i % 32, 32) && side_cell_sound(
                c@,
                dir,
                32,
                i / 32,
                i % 32,
                layers@[(cur + dir) * 1024 + i],
            ),
        side_done(c@, old(buffer).faces@, layers@, (cur + dir) * 1024, dir, 32),
        side_free(old(buffer).faces@, layers@, (cur + dir) * 1024, dir, 32, 0, 1024),
        rows_apart(layers@, (cur + dir) * 1024),
        faces_disjoint(old(buffer).faces@),
        old(buffer).faces@.len() < 0x1000_0000,
    ensures
        final(buffer).faces@ == old(buffer).faces@ + side_flush(side_pending(c@, dir, 32), dir, 1024),
        buffer_ok(final(buffer)),
        faces_sound(c@, final(buffer).faces@),
        prefix_of(old(buffer).faces@, final(buffer).faces@),
        faces_disjoint(final(buffer).faces@),
        added_dir(old(buffer).faces@, final(buffer).faces@, dir),
        forall|t: int, row: int, col: int|
            0 <= t < 32 && 0 <= row < 32 && 0 <= col < 32 && #[trigger] plane_value(c@, dir, t, row, col) != 0 ==> covered_by(
                final(buffer).faces@,
                dir,
                t,
                side_origin(dir, col, row).0,
                side_origin(dir, col, row).1,
            ),
        final(buffer).faces@.len() <= old(buffer).faces@.len() + 1024,
{
    let base = layers.plane_idx(cur + dir) as u32;
    proof {
        assert forall|t: int, row: int, col: int|
            0 <= t < 32 && 0 <= row < 32 && 0 <= col < 32 && #[trigger] plane_value(c@, dir, t, row, col) != 0 implies {
                ||| covered_by(buffer.faces@, dir, t, side_origin(dir, col, row).0, side_origin(dir, col, row).1)
                ||| exists|c0: int| 0 <= c0 < 32 && row * 32 + c0 >= 0 && #[trigger] pending_covers(layers@[base + row * 32 + c0], 32, c0, t, col)
            } by {
            if !covered_by(buffer.faces@, dir, t, side_origin(dir, col, row).0, side_origin(dir, col, row).1) {
                let c0 = choose|c0: int| 0 <= c0 < 32 && #[trigger] pending_covers(layers@[base + row * 32 + c0], 32, c0, t, col);
                assert(pending_covers(layers@[base + row * 32 + c0], 32, c0, t, col));
            }
        }
        assert(side_flush_progress(c@, buffer.faces@, layers@, base as int, dir, 0));
    }
    let mut i: u32 = 0;
    while i < 1024
        invariant
            forall|k: int| 0 <= k < 1024 ==> #[trigger] layers@[(cur + dir) * 1024 + k] == side_pending(c@, dir, 32)[k],
            buffer.faces@ == old(buffer).faces@ + side_flush(side_pending(c@, dir, 32), dir, i as nat),
            layers_ok(layers),
            buffer_ok(buffer),
            faces_sound(c@, buffer.faces@),
            1 <= dir <= 4,
            cur == 0 || cur == 6,
            base == (cur + dir) * 1024,
            i <= 1024,
            forall|k: int|
                0 <= k < 1024 ==> pending_ok(#[trigger] layers@[base + k], k % 32, 32) && side_cell_sound(
                    c@,
                    dir,
                    32,
                    k / 32,
                    k % 32,
                    layers@[base + k],
                ),
            side_flush_progress(c@, buffer.faces@, layers@, base as int, dir, i as int),
            side_free(buffer.faces@, layers@, base as int, dir, 32, i as int, 1024),
            rows_apart(layers@, base as int),
            faces_disjoint(buffer.faces@),
            added_dir(old(buffer).faces@, buffer.faces@, dir),
            prefix_of(old(buffer).faces@, buffer.faces@),
            buffer.faces@.len() <= old(buffer).faces@.len() + i,
        decreases 1024 - i,
    {
        let top = layers.get_idx(base + i);
        let ghost p = side_pending(c@, dir, 32);
        let ghost e0 = side_flush(p, dir, i as nat);
        let ghost e1 = side_flush(p, dir, (i + 1) as nat);
        assert(top == p[i as int]);
        if top != 0 {
            proof {
                lemma_cell_bits(top);
                lemma_index_bits(i);
                lemma_plane_col((i / 32) as int, (i % 32) as int);
                lemma_side_face_ok(
                    dir,
                    (i % 32) as int,
                    (i / 32) as int,
                    32 - cell_height(top),
                    cell_width(top),
                    cell_height(top),
                    top & 0x1FFFF,
                );
                lemma_side_face_sound(
                    c@,
                    dir,
                    (i / 32) as int,
                    (i % 32) as int,
                    cell_width(top),
                    32 - cell_height(top),
                    cell_height(top),
                    top & 0x1FFFF,
                );
            }
            let top_h = top >> 25;
            let (x, y) = unrotate(dir, i & 31, i >> 5);
            let ghost before = buffer.faces@;
            emit_rect(buffer, dir, CHUNK_SIZE - top_h, x, y, (top >> 17) & 0xFF, top_h, top & 0x1FFFF);
            proof {
                let f = buffer.faces@.last();
                lemma_sound_push(c@, before, f);
                lemma_prefix_push(old(buffer).faces@, before, f);
                assert forall|t: int, col: int|
                    pending_covers(layers@[base + i], 32, i as int % 32, t, col) && 0 <= col < 32 implies #[trigger] covered_by(
                    buffer.faces@,
                    dir,
                    t,
                    side_origin(dir, col, i as int / 32).0,
                    side_origin(dir, col, i as int / 32).1,
                ) by {
                    lemma_side_face_covers(dir, (i / 32) as int, (i % 32) as int, cell_width(top), 32 - cell_height(top), cell_height(top), top & 0x1FFFF, t, col);
                    lemma_covered_last(before, f, t, side_origin(dir, col, i as int / 32).0, side_origin(dir, col, i as int / 32).1);
                }
                lemma_side_flush_step(c@, before, buffer.faces@, layers@, base as int, dir, i as int);
                assert(f == side_rect(dir, 32, i as int, top));
                assert(e1 =~= e0 + seq![f]);
                assert(buffer.faces@ =~= old(buffer).faces@ + e1);
                lemma_added_dir_push(old(buffer).faces@, before, f, dir);
                assert forall|t: int, x: int, y: int|
                    0 <= t < 32 && 0 <= x < 32 && 0 <= y < 32 && #[trigger] covers(f, t, x, y) implies {
                        &&& pending_covers(layers@[base + i], 32, i as int % 32, t, plane_pos(dir, x, y).0)
                        &&& plane_pos(dir, x, y).1 == i as int / 32
                        &&& 0 <= plane_pos(dir, x, y).0 < 32
                        &&& side_origin(dir, plane_pos(dir, x, y).0, i as int / 32) == (x, y)
                    } by {
                    lemma_side_face_covers_only(dir, (i / 32) as int, (i % 32) as int, cell_width(top), 32 - cell_height(top), cell_height(top), top & 0x1FFFF, t, x, y);
                }
                lemma_side_flush_apart(before, layers@, base as int, dir, i as int, f);
            }
        } else {
            proof {
                lemma_prefix_refl(buffer.faces@);
                lemma_side_flush_step(c@, buffer.faces@, buffer.faces@, layers@, base as int, dir, i as int);
                assert(e1 =~= e0);
                assert(side_free(buffer.faces@, layers@, base as int, dir, 32, i + 1, 1024));
            }
        }
        i += 1;
    }
    proof {
        assert forall|t: int, row: int, col: int|
            0 <= t < 32 && 0 <= row < 32 && 0 <= col < 32 && #[trigger] plane_value(c@, dir, t, row, col) != 0 implies covered_by(
            buffer.faces@,
            dir,
            t,
            side_origin(dir, col, row).0,
            side_origin(dir, col, row).1,
        ) by {
            if !covered_by(buffer.faces@, dir, t, side_origin(dir, col, row).0, side_origin(dir, col, row).1) {
                let c0 = choose|c0: int| 0 <= c0 < 32 && row * 32 + c0 >= 1024 && #[trigger] pending_covers(layers@[base + row * 32 + c0], 32, c0, t, col);
                assert(false);
            }
        }
    }
}

/// The output buffer of a run of faces: the solid stream, then the water stream.
pub open spec fn mesh_of(fs: Seq<Face>) -> Seq<u32> {
    emit_all(fs).0 + emit_all(fs).1
}

/// Meshes a haloed chunk, merging co-planar faces of equal payload into
/// rectangles. On return `out_mesh` holds the solid stream followed by the
/// water stream of `greedy_faces(chunk@)`: slab by slab, the four side planes
/// (maximal row runs stacked onto the run above while payload and width match
/// and the height is below `S`), then the `UP` and `DOWN` planes (row runs
/// stacked onto equal runs of the previous row), then the side rectangles
/// still open after the last slab. `tmp_mesh` holds the water stream and the
/// result is the length of `out_mesh`. Those rectangles are between 1 and `S`
/// cells on each side and lie inside the chunk; every unit cell inside the
/// chunk that one covers is a face the quick pass draws, with the same
/// direction and payload; every face the quick pass draws with a non-zero
/// payload is covered; and no cell is covered twice.
#[verifier::rlimit(100)]
#[verifier::spinoff_prover]
pub fn create_mesh(chunk: &Array3D, out_mesh: &mut Vec<u32>, tmp_mesh: &mut Vec<u32>) -> (r: u32)
    requires
        is_chunk(chunk),
        known_blocks(chunk@),
    ensures
        final(out_mesh)@ == mesh_of(greedy_faces(chunk@)),
        final(tmp_mesh)@ == emit_all(greedy_faces(chunk@)).1,
        faces_ok(greedy_faces(chunk@)),
        faces_sound(chunk@, greedy_faces(chunk@)),
        faces_complete(chunk@, greedy_faces(chunk@)),
        faces_disjoint(greedy_faces(chunk@)),
        r == final(out_mesh)@.len(),
{
    let ghost c = chunk@;
    let mut buffer = FaceBuffer::new();
    let mut layers = Array3D::from_raw(vec![0u32; 12288], 32, 32, 12);
    layers.fill_planes(6, 5, 0);
    let mut current_layer_offset: u32 = 6;
    let mut h: u32 = 1;
    while h <= 32
        invariant
            forall|d: int, i: int|
                1 <= d <= 4 && 0 <= i < 1024 ==> #[trigger] layers@[(current_layer_offset + d) * 1024 + i] == side_pending(
                    c,
                    d as u32,
                    (h - 1) as nat,
                )[i],
            buffer.faces@ == greedy_upto(c, (h - 1) as nat),
            is_chunk(chunk),
            known_blocks(chunk@),
            c == chunk@,
            layers_ok(&layers),
            buffer_ok(&buffer),
            faces_sound(c, buffer.faces@),
            1 <= h <= 33,
            current_layer_offset == 6 - ((h - 1) % 2) * 6,
            forall|d: int, i: int|
                1 <= d <= 4 && 0 <= i < 1024 ==> pending_ok(
                    #[trigger] layers@[(current_layer_offset + d) * 1024 + i],
                    i % 32,
                    h - 1,
                ) && side_cell_sound(c, d as u32, h - 1, i / 32, i % 32, layers@[(current_layer_offset + d) * 1024 + i]),
            forall|d: u32| 1 <= d <= 4 ==> #[trigger] side_done(c, buffer.faces@, layers@, (current_layer_offset + d) * 1024, d, h - 1),
            flat_covered_upto(c, buffer.faces@, h - 1),
            forall|d: u32| 1 <= d <= 4 ==> #[trigger] side_apart(buffer.faces@, layers@, (current_layer_offset + d) * 1024, d, h - 1),
            flat_below(buffer.faces@, 0, h - 1, 0),
            flat_below(buffer.faces@, 5, h - 1, 0),
            faces_disjoint(buffer.faces@),
            buffer.faces@.len() <= 6208 * (h - 1),
        decreases 33 - h,
    {
        let real_h = h - 1;
        proof {
            lemma_index_bits(real_h);
        }
        current_layer_offset = (real_h & 1) * 6;
        let top_layer_offset = 6 - current_layer_offset;
        let ghost start = layers@;
        layers.fill_planes(0, 1, 0);
        layers.fill_planes(5, 1, 0);
        layers.fill_planes(current_layer_offset + 1, 5, 0);
        assert forall|d: int, i: int|
            1 <= d <= 4 && 0 <= i < 1024 implies pending_ok(
            #[trigger] layers@[(top_layer_offset + d) * 1024 + i],
            i % 32,
            real_h as int,
        ) && side_cell_sound(c, d as u32, real_h as int, i / 32, i % 32, layers@[(top_layer_offset + d) * 1024 + i]) by {}
        assert forall|d: u32, row: int, col: int|
            d < 6 && 0 <= row < 32 && 0 <= col < 32 implies #[trigger] layers@[slab_index(d, current_layer_offset as int, row, col)] == 0 by {
        }
        let ghost cleared = layers@;
        collect_slab(chunk, &mut layers, h, current_layer_offset);
        assert forall|d: int, i: int|
            1 <= d <= 4 && 0 <= i < 1024 implies #[trigger] layers@[(top_layer_offset + d) * 1024 + i] == cleared[(
            top_layer_offset + d) * 1024 + i] by {
            assert(!in_slab_planes((top_layer_offset + d) * 1024 + i, current_layer_offset as int));
        }
        proof {
            lemma_prefix_refl(buffer.faces@);
            assert forall|d: u32| 1 <= d <= 4 implies #[trigger] side_done(c, buffer.faces@, layers@, (top_layer_offset + d) * 1024, d, real_h as int) by {
                assert(side_done(c, buffer.faces@, start, (top_layer_offset + d) * 1024, d, real_h as int));
                assert forall|j: int| 0 <= j < 1024 implies #[trigger] layers@[(top_layer_offset + d) * 1024 + j] == start[(top_layer_offset + d) * 1024 + j] by {
                    assert(layers@[(top_layer_offset + d) * 1024 + j] == cleared[(top_layer_offset + d) * 1024 + j]);
                }
                lemma_side_done_frame(c, buffer.faces@, buffer.faces@, start, layers@, (top_layer_offset + d) * 1024, d, real_h as int);
            }
            assert forall|d: u32| 1 <= d <= 4 implies #[trigger] side_apart(buffer.faces@, layers@, (top_layer_offset + d) * 1024, d, real_h as int) by {
                assert(side_apart(buffer.faces@, start, (top_layer_offset + d) * 1024, d, real_h as int));
                assert forall|j: int| 0 <= j < 1024 implies #[trigger] layers@[(top_layer_offset + d) * 1024 + j] == start[(top_layer_offset + d) * 1024 + j] by {
                    assert(layers@[(top_layer_offset + d) * 1024 + j] == cleared[(top_layer_offset + d) * 1024 + j]);
                }
                lemma_side_apart_lframe(buffer.faces@, start, layers@, (top_layer_offset + d) * 1024, d, real_h as int);
            }
        }
        assert forall|d: int, i: int|
            1 <= d <= 4 && 0 <= i < 1024 implies #[trigger] layers@[(top_layer_offset + d) * 1024 + i] == side_pending(
            c,
            d as u32,
            real_h as nat,
        )[i] by {
            assert(layers@[(top_layer_offset + d) * 1024 + i] == cleared[(top_layer_offset + d) * 1024 + i]);
            assert(start[(top_layer_offset + d) * 1024 + i] == side_pending(c, d as u32, real_h as nat)[i]);
        }
        let mut dir: u32 = 1;
        while dir <= 4
            invariant
                forall|d: int, i: int|
                    dir <= d <= 4 && 0 <= i < 1024 ==> #[trigger] layers@[(top_layer_offset + d) * 1024 + i] == side_pending(
                        c,
                        d as u32,
                        real_h as nat,
                    )[i],
                forall|d: int, i: int|
                    1 <= d < dir && 0 <= i < 1024 ==> #[trigger] layers@[(current_layer_offset + d) * 1024 + i] == side_pending(
                        c,
                        d as u32,
                        (real_h + 1) as nat,
                    )[i],
                buffer.faces@ == greedy_upto(c, real_h as nat) + slab_side_faces(c, real_h as nat, dir),
                layers_ok(&layers),
                buffer_ok(&buffer),
                faces_sound(c, buffer.faces@),
                1 <= dir <= 5,
                real_h < 32,
                current_layer_offset == 0 || current_layer_offset == 6,
                top_layer_offset == 6 - current_layer_offset,
                forall|d: u32, row: int, col: int|
                    (d == 0 || d == 5 || dir <= d <= 4) && 0 <= row < 32 && 0 <= col < 32 ==> #[trigger] layers@[slab_index(
                        d,
                        current_layer_offset as int,
                        row,
                        col,
                    )] == plane_value(c, d, real_h as int, row, col),
                forall|d: int, i: int|
                    1 <= d < dir && 0 <= i < 1024 ==> pending_ok(
                        #[trigger] layers@[(current_layer_offset + d) * 1024 + i],
                        i % 32,
                        real_h + 1,
                    ) && side_cell_sound(
                        c,
                        d as u32,
                        real_h + 1,
                        i / 32,
                        i % 32,
                        layers@[(current_layer_offset + d) * 1024 + i],
                    ),
                forall|d: int, i: int|
                    1 <= d <= 4 && 0 <= i < 1024 ==> pending_ok(
                        #[trigger] layers@[(top_layer_offset + d) * 1024 + i],
                        i % 32,
                        real_h as int,
                    ) && side_cell_sound(c, d as u32, real_h as int, i / 32, i % 32, layers@[(top_layer_offset + d) * 1024 + i]),
                forall|d: u32| dir <= d <= 4 ==> #[trigger] side_done(c, buffer.faces@, layers@, (top_layer_offset + d) * 1024, d, real_h as int),
                forall|d: u32| 1 <= d < dir ==> #[trigger] side_done(c, buffer.faces@, layers@, (current_layer_offset + d) * 1024, d, real_h + 1),
                flat_covered_upto(c, buffer.faces@, real_h as int),
                forall|d: u32| dir <= d <= 4 ==> #[trigger] side_apart(buffer.faces@, layers@, (top_layer_offset + d) * 1024, d, real_h as int),
                forall|d: u32| 1 <= d < dir ==> #[trigger] side_apart(buffer.faces@, layers@, (current_layer_offset + d) * 1024, d, real_h + 1),
                flat_below(buffer.faces@, 0, real_h as int, 0),
                flat_below(buffer.faces@, 5, real_h as int, 0),
                faces_disjoint(buffer.faces@),
                buffer.faces@.len() <= 6208 * real_h + 1024 * (dir - 1),
            decreases 5 - dir,
        {
            let ghost before = layers@;
            let ghost fs0 = buffer.faces@;
            assert forall|i: int|
                0 <= i < 1024 implies {
                    &&& pending_ok(#[trigger] layers@[(6 - current_layer_offset + dir) * 1024 + i], i % 32, real_h as int)
                    &&& side_cell_sound(c, dir, real_h as int, i / 32, i % 32, layers@[(6 - current_layer_offset + dir) * 1024 + i])
                } by {
                assert(pending_ok(layers@[(top_layer_offset + dir) * 1024 + i], i % 32, real_h as int));
            }
            assert(side_done(c, buffer.faces@, layers@, (top_layer_offset + dir) * 1024, dir, real_h as int));
            assert(side_apart(buffer.faces@, layers@, (top_layer_offset + dir) * 1024, dir, real_h as int));
            assert forall|i: int| 0 <= i < 1024 implies #[trigger] layers@[(6 - current_layer_offset + dir) * 1024 + i] == side_pending(
                c,
                dir,
                real_h as nat,
            )[i] by {
                assert(layers@[(top_layer_offset + dir as int) * 1024 + i] == side_pending(c, (dir as int) as u32, real_h as nat)[i]);
            }
            let ghost faces_before = buffer.faces@;
            merge_side_plane(&mut layers, &mut buffer, dir, current_layer_offset, real_h, Ghost(c));
            proof {
                assert(slab_side_faces(c, real_h as nat, (dir + 1) as u32) == slab_side_faces(c, real_h as nat, dir) + side_emits(
                    side_pending(c, dir, real_h as nat),
                    merged_side(c, dir, real_h as int),
                    dir,
                    real_h as int,
                    1024,
                ));
                assert(buffer.faces@ =~= greedy_upto(c, real_h as nat) + slab_side_faces(c, real_h as nat, (dir + 1) as u32));
                assert forall|d: int, i: int|
                    dir + 1 <= d <= 4 && 0 <= i < 1024 implies #[trigger] layers@[(top_layer_offset + d) * 1024 + i] == side_pending(
                    c,
                    d as u32,
                    real_h as nat,
                )[i] by {
                    assert(layers@[(top_layer_offset + d) * 1024 + i] == before[(top_layer_offset + d) * 1024 + i]);
                }
                assert forall|d: int, i: int|
                    1 <= d < dir + 1 && 0 <= i < 1024 implies #[trigger] layers@[(current_layer_offset + d) * 1024 + i] == side_pending(
                    c,
                    d as u32,
                    (real_h + 1) as nat,
                )[i] by {
                    if d < dir {
                        assert(layers@[(current_layer_offset + d) * 1024 + i] == before[(current_layer_offset + d) * 1024 + i]);
                    } else {
                        assert(layers@[(current_layer_offset + dir) * 1024 + i] == side_pending(c, dir, (real_h + 1) as nat)[i]);
                    }
                }
            }
            assert forall|d: u32, row: int, col: int|
                (d == 0 || d == 5 || dir + 1 <= d <= 4) && 0 <= row < 32 && 0 <= col < 32 implies #[trigger] layers@[slab_index(
                    d,
                    current_layer_offset as int,
                    row,
                    col,
                )] == plane_value(c, d, real_h as int, row, col) by {
                assert(before[slab_index(d, current_layer_offset as int, row, col)] == plane_value(c, d, real_h as int, row, col));
            }
            assert forall|d: int, i: int|
                1 <= d <= 4 && 0 <= i < 1024 implies pending_ok(
                    #[trigger] layers@[(top_layer_offset + d) * 1024 + i],
                    i % 32,
                    real_h as int,
                ) && side_cell_sound(c, d as u32, real_h as int, i / 32, i % 32, layers@[(top_layer_offset + d) * 1024 + i]) by {
                assert(layers@[(top_layer_offset + d) * 1024 + i] == before[(top_layer_offset + d) * 1024 + i]);
            }
            assert forall|d: int, i: int|
                1 <= d < dir + 1 && 0 <= i < 1024 implies pending_ok(
                    #[trigger] layers@[(current_layer_offset + d) * 1024 + i],
                    i % 32,
                    real_h + 1,
                ) && side_cell_sound(
                    c,
                    d as u32,
                    real_h + 1,
                    i / 32,
                    i % 32,
                    layers@[(current_layer_offset + d) * 1024 + i],
                ) by {
                if d < dir {
                    assert(layers@[(current_layer_offset + d) * 1024 + i] == before[(current_layer_offset + d) * 1024 + i]);
                }
            }
            proof {
                lemma_flat_covered_prefix(c, fs0, buffer.faces@, real_h as int);
                assert forall|d: u32| dir + 1 <= d <= 4 implies #[trigger] side_done(c, buffer.faces@, layers@, (top_layer_offset + d) * 1024, d, real_h as int) by {
                    assert(side_done(c, fs0, before, (top_layer_offset + d) * 1024, d, real_h as int));
                    assert forall|j: int| 0 <= j < 1024 implies #[trigger] layers@[(top_layer_offset + d) * 1024 + j] == before[(top_layer_offset + d) * 1024 + j] by {}
                    lemma_side_done_frame(c, fs0, buffer.faces@, before, layers@, (top_layer_offset + d) * 1024, d, real_h as int);
                }
                assert forall|d: u32| 1 <= d < dir + 1 implies #[trigger] side_done(c, buffer.faces@, layers@, (current_layer_offset + d) * 1024, d, real_h + 1) by {
                    if d < dir {
                        assert(side_done(c, fs0, before, (current_layer_offset + d) * 1024, d, real_h + 1));
                        assert forall|j: int| 0 <= j < 1024 implies #[trigger] layers@[(current_layer_offset + d) * 1024 + j] == before[(current_layer_offset + d) * 1024 + j] by {}
                        lemma_side_done_frame(c, fs0, buffer.faces@, before, layers@, (current_layer_offset + d) * 1024, d, real_h + 1);
                    }
                }
                assert forall|d: u32| dir + 1 <= d <= 4 implies #[trigger] side_apart(buffer.faces@, layers@, (top_layer_offset + d) * 1024, d, real_h as int) by {
                    assert(side_apart(fs0, before, (top_layer_offset + d) * 1024, d, real_h as int));
                    assert forall|j: int| 0 <= j < 1024 implies #[trigger] layers@[(top_layer_offset + d) * 1024 + j] == before[(top_layer_offset + d) * 1024 + j] by {}
                    lemma_side_apart_frame(fs0, buffer.faces@, dir, before, layers@, (top_layer_offset + d) * 1024, d, real_h as int);
                }
                assert forall|d: u32| 1 <= d < dir + 1 implies #[trigger] side_apart(buffer.faces@, layers@, (current_layer_offset + d) * 1024, d, real_h + 1) by {
                    if d < dir {
                        assert(side_apart(fs0, before, (current_layer_offset + d) * 1024, d, real_h + 1));
                        assert forall|j: int| 0 <= j < 1024 implies #[trigger] layers@[(current_layer_offset + d) * 1024 + j] == before[(current_layer_offset + d) * 1024 + j] by {}
                        lemma_side_apart_frame(fs0, buffer.faces@, dir, before, layers@, (current_layer_offset + d) * 1024, d, real_h + 1);
                    }
                }
                lemma_flat_below_frame(fs0, buffer.faces@, dir, 0, real_h as int, 0);
                lemma_flat_below_frame(fs0, buffer.faces@, dir, 5, real_h as int, 0);
            }
            dir += 1;
        }
        let mut up_down: u32 = 0;
        while up_down < 2
            invariant
                forall|d: int, i: int|
                    1 <= d <= 4 && 0 <= i < 1024 ==> #[trigger] layers@[(current_layer_offset + d) * 1024 + i] == side_pending(
                        c,
                        d as u32,
                        (real_h + 1) as nat,
                    )[i],
                buffer.faces@ == greedy_upto(c, real_h as nat) + slab_side_faces(c, real_h as nat, 5) + (if up_down >= 1 {
                    flat_faces(c, 0, real_h as int)
                } else {
                    Seq::empty()
                }) + (if up_down >= 2 {
                    flat_faces(c, 5, real_h as int)
                } else {
                    Seq::empty()
                }),
                layers_ok(&layers),
                buffer_ok(&buffer),
                faces_sound(c, buffer.faces@),
                up_down <= 2,
                real_h < 32,
                current_layer_offset == 0 || current_layer_offset == 6,
                forall|d: u32, row: int, col: int|
                    (d == 0 || d == 5) && 0 <= row < 32 && 0 <= col < 32 ==> #[trigger] layers@[slab_index(
                        d,
                        current_layer_offset as int,
                        row,
                        col,
                    )] == plane_value(c, d, real_h as int, row, col),
                forall|d: u32| 1 <= d <= 4 ==> #[trigger] side_done(c, buffer.faces@, layers@, (current_layer_offset + d) * 1024, d, real_h + 1),
                flat_covered_upto(c, buffer.faces@, real_h as int),
                forall|d: u32| 1 <= d <= 4 ==> #[trigger] side_apart(buffer.faces@, layers@, (current_layer_offset + d) * 1024, d, real_h + 1),
                flat_below(buffer.faces@, 0, if up_down >= 1 { real_h + 1 } else { real_h as int }, 0),
                flat_below(buffer.faces@, 5, if up_down >= 2 { real_h + 1 } else { real_h as int }, 0),
                faces_disjoint(buffer.faces@),
                forall|d: u32, r: int, col: int|
                    (d == 0 && up_down >= 1 || d == 5 && up_down >= 2) && 0 <= r < 32 && 0 <= col < 32 && #[trigger] plane_value(
                        c,
                        d,
                        real_h as int,
                        r,
                        col,
                    ) != 0 ==> covered_by(buffer.faces@, d, real_h as int, plane_origin(d, col, r).0, plane_origin(d, col, r).1),
                buffer.faces@.len() <= 6208 * real_h + 4096 + 1056 * up_down,
            decreases 2 - up_down,
        {
            assert forall|row: int, col: int|
                0 <= row < 32 && 0 <= col < 32 implies #[trigger] layers@[up_down * 5 * 1024 + row * 32 + col] == plane_value(
                    c,
                    (up_down * 5) as u32,
                    real_h as int,
                    row,
                    col,
                ) by {
                assert(layers@[slab_index((up_down * 5) as u32, current_layer_offset as int, row, col)] == plane_value(c, (up_down * 5) as u32, real_h as int, row, col));
            }
            let ghost fs0 = buffer.faces@;
            assert(flat_below(buffer.faces@, (up_down * 5) as u32, real_h as int, 0));
            merge_flat_plane(&layers, &mut buffer, up_down, real_h, Ghost(c));
            proof {
                if up_down == 0 {
                    assert(buffer.faces@ =~= greedy_upto(c, real_h as nat) + slab_side_faces(c, real_h as nat, 5) + flat_faces(
                        c,
                        0,
                        real_h as int,
                    ) + Seq::<Face>::empty());
                } else {
                    assert(buffer.faces@ =~= greedy_upto(c, real_h as nat) + slab_side_faces(c, real_h as nat, 5) + flat_faces(
                        c,
                        0,
                        real_h as int,
                    ) + flat_faces(c, 5, real_h as int));
                }
            }
            proof {
                lemma_flat_covered_prefix(c, fs0, buffer.faces@, real_h as int);
                assert forall|d: u32| 1 <= d <= 4 implies #[trigger] side_done(c, buffer.faces@, layers@, (current_layer_offset + d) * 1024, d, real_h + 1) by {
                    assert(side_done(c, fs0, layers@, (current_layer_offset + d) * 1024, d, real_h + 1));
                    lemma_side_done_frame(c, fs0, buffer.faces@, layers@, layers@, (current_layer_offset + d) * 1024, d, real_h + 1);
                }
                assert forall|d: u32, r: int, col: int|
                    (d == 0 && up_down + 1 >= 1 || d == 5 && up_down + 1 >= 2) && 0 <= r < 32 && 0 <= col < 32 && #[trigger] plane_value(
                        c,
                        d,
                        real_h as int,
                        r,
                        col,
                    ) != 0 implies covered_by(buffer.faces@, d, real_h as int, plane_origin(d, col, r).0, plane_origin(d, col, r).1) by {
                    if d != up_down * 5 {
                        lemma_covered_prefix(fs0, buffer.faces@, d, real_h as int, plane_origin(d, col, r).0, plane_origin(d, col, r).1);
                    } else {
                        assert(d == (up_down * 5) as u32);
                        assert(plane_value(c, (up_down * 5) as u32, real_h as int, r, col) != 0);
                    }
                }
                assert forall|d: u32| 1 <= d <= 4 implies #[trigger] side_apart(buffer.faces@, layers@, (current_layer_offset + d) * 1024, d, real_h + 1) by {
                    assert(side_apart(fs0, layers@, (current_layer_offset + d) * 1024, d, real_h + 1));
                    lemma_side_apart_frame(fs0, buffer.faces@, (up_down * 5) as u32, layers@, layers@, (current_layer_offset + d) * 1024, d, real_h + 1);
                }
                if up_down == 0 {
                    lemma_flat_below_frame(fs0, buffer.faces@, 0, 5, real_h as int, 0);
                } else {
                    lemma_flat_below_frame(fs0, buffer.faces@, 5, 0, real_h + 1, 0);
                }
            }
            up_down += 1;
        }
        proof {
            assert forall|d: u32, t: int, r: int, col: int|
                (d == 0 || d == 5) && 0 <= t < real_h + 1 && 0 <= r < 32 && 0 <= col < 32 && #[trigger] plane_value(c, d, t, r, col) != 0
                    implies covered_by(buffer.faces@, d, t, plane_origin(d, col, r).0, plane_origin(d, col, r).1) by {
                if t < real_h {
                    assert(flat_covered_upto(c, buffer.faces@, real_h as int));
                }
            }
        }
        proof {
            assert(greedy_upto(c, (real_h + 1) as nat) == greedy_upto(c, real_h as nat) + slab_faces(c, real_h as nat));
            assert(buffer.faces@ =~= greedy_upto(c, (real_h + 1) as nat));
        }
        h += 1;
    }
    proof {
        assert(buffer.faces@ =~= greedy_upto(c, 32) + final_side_faces(c, 1));
    }
    let mut dir: u32 = 1;
    while dir <= 4
        invariant
            forall|d: int, i: int|
                dir <= d <= 4 && 0 <= i < 1024 ==> #[trigger] layers@[(current_layer_offset + d) * 1024 + i] == side_pending(
                    c,
                    d as u32,
                    32,
                )[i],
            buffer.faces@ == greedy_upto(c, 32) + final_side_faces(c, dir),
            layers_ok(&layers),
            buffer_ok(&buffer),
            faces_sound(c, buffer.faces@),
            1 <= dir <= 5,
            current_layer_offset == 6,
            forall|d: int, i: int|
                1 <= d <= 4 && 0 <= i < 1024 ==> pending_ok(
                    #[trigger] layers@[(current_layer_offset + d) * 1024 + i],
                    i % 32,
                    32,
                ) && side_cell_sound(c, d as u32, 32, i / 32, i % 32, layers@[(current_layer_offset + d) * 1024 + i]),
            forall|d: u32| dir <= d <= 4 ==> #[trigger] side_done(c, buffer.faces@, layers@, (current_layer_offset + d) * 1024, d, 32),
            forall|d: u32| 1 <= d < dir ==> #[trigger] side_covered(c, buffer.faces@, d),
            flat_covered_upto(c, buffer.faces@, 32),
            forall|d: u32| dir <= d <= 4 ==> #[trigger] side_apart(buffer.faces@, layers@, (current_layer_offset + d) * 1024, d, 32),
            faces_disjoint(buffer.faces@),
            buffer.faces@.len() <= 6208 * 32 + 1024 * (dir - 1),
        decreases 5 - dir,
    {
        assert forall|i: int| 0 <= i < 1024 implies pending_ok(
            #[trigger] layers@[(current_layer_offset + dir) * 1024 + i],
            i % 32,
            32,
        ) && side_cell_sound(c, dir, 32, i / 32, i % 32, layers@[(current_layer_offset + dir) * 1024 + i]) by {
            assert(pending_ok(layers@[(current_layer_offset + dir as int) * 1024 + i], i % 32, 32));
        }
        assert(side_done(c, buffer.faces@, layers@, (current_layer_offset + dir) * 1024, dir, 32));
        assert(side_apart(buffer.faces@, layers@, (current_layer_offset + dir) * 1024, dir, 32));
        let ghost fs0 = buffer.faces@;
        assert forall|i: int| 0 <= i < 1024 implies #[trigger] layers@[(current_layer_offset + dir) * 1024 + i] == side_pending(
            c,
            dir,
            32,
        )[i] by {
            assert(layers@[(current_layer_offset + dir as int) * 1024 + i] == side_pending(c, (dir as int) as u32, 32)[i]);
        }
        flush_side_plane(&layers, &mut buffer, dir, current_layer_offset, Ghost(c));
        proof {
            assert(final_side_faces(c, (dir + 1) as u32) == final_side_faces(c, dir) + side_flush(side_pending(c, dir, 32), dir, 1024));
            assert(buffer.faces@ =~= greedy_upto(c, 32) + final_side_faces(c, (dir + 1) as u32));
        }
        proof {
            lemma_flat_covered_prefix(c, fs0, buffer.faces@, 32);
            assert forall|d: u32| dir + 1 <= d <= 4 implies #[trigger] side_done(c, buffer.faces@, layers@, (current_layer_offset + d) * 1024, d, 32) by {
                assert(side_done(c, fs0, layers@, (current_layer_offset + d) * 1024, d, 32));
                lemma_side_done_frame(c, fs0, buffer.faces@, layers@, layers@, (current_layer_offset + d) * 1024, d, 32);
            }
            assert forall|d: u32| dir + 1 <= d <= 4 implies #[trigger] side_apart(buffer.faces@, layers@, (current_layer_offset + d) * 1024, d, 32) by {
                assert(side_apart(fs0, layers@, (current_layer_offset + d) * 1024, d, 32));
                lemma_side_apart_frame(fs0, buffer.faces@, dir, layers@, layers@, (current_layer_offset + d) * 1024, d, 32);
            }
            assert forall|d: u32| 1 <= d < dir + 1 implies #[trigger] side_covered(c, buffer.faces@, d) by {
                if d < dir {
                    assert(side_covered(c, fs0, d));
                    lemma_side_covered_prefix(c, fs0, buffer.faces@, d);
                }
            }
        }
        dir += 1;
    }
    let ghost fs = buffer.faces@;
    proof {
        assert(fs == greedy_faces(c));
        lemma_emit_len((Seq::empty(), Seq::empty()), fs);
        assert forall|d: u32, t: int, x: int, y: int|
            d < 6 && 0 <= t < 32 && 0 <= x < 32 && 0 <= y < 32 && face_visible(c, d, t + 1, x + 1, y + 1) && #[trigger] face_payload(
                c,
                d,
                t + 1,
                x + 1,
                y + 1,
            ) != 0 implies covered_by(fs, d, t, x, y) by {
            lemma_plane_pos(d, x, y);
            let (col, row) = plane_pos(d, x, y);
            assert(plane_value(c, d, t, row, col) != 0);
            if d == 0 || d == 5 {
                assert(flat_covered_upto(c, fs, 32));
            } else {
                assert(side_covered(c, fs, d));
            }
        }
    }
    let r = buffer.complete();
    *out_mesh = buffer.mesh_data_solid;
    *tmp_mesh = buffer.mesh_data_water;
    r
}

} // verus!
