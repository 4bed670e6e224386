//! Invariants of the greedy merge: what the pending cells and the emitted
//! rectangles cover midway through a plane, and how each step keeps them.
use vstd::prelude::*;
use crate::encoder::{Face, covers};
use crate::layers::{
    cell_height, cell_payload, cell_width, lemma_plane_col, lemma_plane_pos_flat,
    lemma_plane_pos_side, lemma_plane_value_bound, lemma_run_cells, lemma_run_head,
    lemma_run_len_bound, lemma_runs_apart, lemma_side_origin_range, lemma_start_fields, merged_cell,
    pending_ok, plane_origin, plane_pos, plane_value, run_head, run_len, run_start, side_origin,
};
use crate::rects::{
    added_dir, covered_by, faces_disjoint, flat_rect_holds, fresh, lemma_covered_last,
    lemma_covered_other_dir, lemma_covered_prefix, lemma_covered_push, lemma_covered_split,
    lemma_disjoint_push, pending_covers, prefix_of, side_rect_holds,
};

verus! {

/// The drawn faces of slabs `0 .. s` of a side plane are each covered by an
/// emitted face or by a pending cell of the plane at `base` of `l`.
pub open spec fn side_done(c: Seq<u32>, fs: Seq<Face>, l: Seq<u32>, base: int, dir: u32, s: int) -> bool {
    forall|t: int, row: int, col: int|
        0 <= t < s && 0 <= row < 32 && 0 <= col < 32 && #[trigger] plane_value(c, dir, t, row, col) != 0 ==> {
            ||| covered_by(fs, dir, t, side_origin(dir, col, row).0, side_origin(dir, col, row).1)
            ||| exists|c0: int| 0 <= c0 < 32 && #[trigger] pending_covers(l[base + row * 32 + c0], s, c0, t, col)
        }
}

/// Midway through merging slab `s` into the side plane at `base`: each drawn
/// face of slabs `0 ..= s` is covered by an emitted face, by a pending cell of
/// the previous slab's plane at `top_base` not yet visited, or by a pending
/// cell of the current plane.
pub open spec fn side_progress(
    c: Seq<u32>,
    fs: Seq<Face>,
    l: Seq<u32>,
    top: Seq<u32>,
    base: int,
    top_base: int,
    dir: u32,
    s: int,
    i: int,
) -> bool {
    forall|t: int, row: int, col: int|
        0 <= t <= s && 0 <= row < 32 && 0 <= col < 32 && #[trigger] plane_value(c, dir, t, row, col) != 0 ==> {
            ||| covered_by(fs, dir, t, side_origin(dir, col, row).0, side_origin(dir, col, row).1)
            ||| exists|c0: int|
                0 <= c0 < 32 && row * 32 + c0 >= i && #[trigger] pending_covers(top[top_base + row * 32 + c0], s, c0, t, col)
            ||| exists|c0: int| 0 <= c0 < 32 && #[trigger] pending_covers(l[base + row * 32 + c0], s + 1, c0, t, col)
        }
}

pub(crate) proof fn lemma_side_step_skip(
    c: Seq<u32>,
    fs: Seq<Face>,
    l: Seq<u32>,
    top: Seq<u32>,
    base: int,
    top_base: int,
    dir: u32,
    s: int,
    i: int,
)
    requires
        side_progress(c, fs, l, top, base, top_base, dir, s, i),
        0 <= i < 1024,
        top[top_base + i] == 0,
    ensures
        side_progress(c, fs, l, top, base, top_base, dir, s, i + 1),
{
    assert forall|t: int, row: int, col: int|
        0 <= t <= s && 0 <= row < 32 && 0 <= col < 32 && #[trigger] plane_value(c, dir, t, row, col) != 0 implies {
            ||| covered_by(fs, dir, t, side_origin(dir, col, row).0, side_origin(dir, col, row).1)
            ||| exists|c0: int|
                0 <= c0 < 32 && row * 32 + c0 >= i + 1 && #[trigger] pending_covers(top[top_base + row * 32 + c0], s, c0, t, col)
            ||| exists|c0: int| 0 <= c0 < 32 && #[trigger] pending_covers(l[base + row * 32 + c0], s + 1, c0, t, col)
        } by {
        if !covered_by(fs, dir, t, side_origin(dir, col, row).0, side_origin(dir, col, row).1)
            && !(exists|c0: int| 0 <= c0 < 32 && #[trigger] pending_covers(l[base + row * 32 + c0], s + 1, c0, t, col)) {
            let c0 = choose|c0: int|
                0 <= c0 < 32 && row * 32 + c0 >= i && #[trigger] pending_covers(top[top_base + row * 32 + c0], s, c0, t, col);
            assert(row * 32 + c0 != i);
        }
    }
}

pub(crate) proof fn lemma_side_step_grow(
    c: Seq<u32>,
    fs: Seq<Face>,
    l: Seq<u32>,
    top: Seq<u32>,
    base: int,
    top_base: int,
    dir: u32,
    s: int,
    i: int,
    g: u32,
)
    requires
        side_progress(c, fs, l, top, base, top_base, dir, s, i),
        0 <= i < 1024,
        top[top_base + i] != 0,
        cell_height(l[base + i]) <= 1,
        g != 0,
        cell_width(g) == cell_width(top[top_base + i]),
        cell_width(g) == cell_width(l[base + i]),
        cell_height(g) == cell_height(top[top_base + i]) + 1,
        0 <= base,
        base + 1024 <= l.len(),
    ensures
        side_progress(c, fs, l.update(base + i, g), top, base, top_base, dir, s, i + 1),
{
    let l1 = l.update(base + i, g);
    assert forall|t: int, row: int, col: int|
        0 <= t <= s && 0 <= row < 32 && 0 <= col < 32 && #[trigger] plane_value(c, dir, t, row, col) != 0 implies {
            ||| covered_by(fs, dir, t, side_origin(dir, col, row).0, side_origin(dir, col, row).1)
            ||| exists|c0: int|
                0 <= c0 < 32 && row * 32 + c0 >= i + 1 && #[trigger] pending_covers(top[top_base + row * 32 + c0], s, c0, t, col)
            ||| exists|c0: int| 0 <= c0 < 32 && #[trigger] pending_covers(l1[base + row * 32 + c0], s + 1, c0, t, col)
        } by {
        if !covered_by(fs, dir, t, side_origin(dir, col, row).0, side_origin(dir, col, row).1) {
            if exists|c0: int| 0 <= c0 < 32 && #[trigger] pending_covers(l[base + row * 32 + c0], s + 1, c0, t, col) {
                let c0 = choose|c0: int| 0 <= c0 < 32 && #[trigger] pending_covers(l[base + row * 32 + c0], s + 1, c0, t, col);
                if row * 32 + c0 == i {
                    assert(pending_covers(l1[base + row * 32 + c0], s + 1, c0, t, col));
                } else {
                    assert(l1[base + row * 32 + c0] == l[base + row * 32 + c0]);
                    assert(pending_covers(l1[base + row * 32 + c0], s + 1, c0, t, col));
                }
            } else {
                let c0 = choose|c0: int|
                    0 <= c0 < 32 && row * 32 + c0 >= i && #[trigger] pending_covers(top[top_base + row * 32 + c0], s, c0, t, col);
                if row * 32 + c0 == i {
                    assert(pending_covers(l1[base + row * 32 + c0], s + 1, c0, t, col));
                } else {
                    assert(pending_covers(top[top_base + row * 32 + c0], s, c0, t, col));
                }
            }
        }
    }
}

pub(crate) proof fn lemma_side_step_emit(
    c: Seq<u32>,
    fs: Seq<Face>,
    l: Seq<u32>,
    top: Seq<u32>,
    base: int,
    top_base: int,
    dir: u32,
    s: int,
    i: int,
    f: Face,
)
    requires
        side_progress(c, fs, l, top, base, top_base, dir, s, i),
        0 <= i < 1024,
        1 <= dir <= 4,
        top[top_base + i] != 0,
        f.dir == dir,
        forall|t: int, col: int|
            pending_covers(top[top_base + i], s, i % 32, t, col) && 0 <= col < 32 ==> #[trigger] covers(
                f,
                t,
                side_origin(dir, col, i / 32).0,
                side_origin(dir, col, i / 32).1,
            ),
    ensures
        side_progress(c, fs.push(f), l, top, base, top_base, dir, s, i + 1),
{
    let fs1 = fs.push(f);
    assert forall|t: int, row: int, col: int|
        0 <= t <= s && 0 <= row < 32 && 0 <= col < 32 && #[trigger] plane_value(c, dir, t, row, col) != 0 implies {
            ||| covered_by(fs1, dir, t, side_origin(dir, col, row).0, side_origin(dir, col, row).1)
            ||| exists|c0: int|
                0 <= c0 < 32 && row * 32 + c0 >= i + 1 && #[trigger] pending_covers(top[top_base + row * 32 + c0], s, c0, t, col)
            ||| exists|c0: int| 0 <= c0 < 32 && #[trigger] pending_covers(l[base + row * 32 + c0], s + 1, c0, t, col)
        } by {
        let (x, y) = side_origin(dir, col, row);
        if covered_by(fs, dir, t, x, y) {
            lemma_covered_push(fs, f, dir, t, x, y);
        } else if !(exists|c0: int| 0 <= c0 < 32 && #[trigger] pending_covers(l[base + row * 32 + c0], s + 1, c0, t, col)) {
            let c0 = choose|c0: int|
                0 <= c0 < 32 && row * 32 + c0 >= i && #[trigger] pending_covers(top[top_base + row * 32 + c0], s, c0, t, col);
            if row * 32 + c0 == i {
                lemma_plane_col(row, c0);
                assert(covers(f, t, x, y));
                lemma_covered_last(fs, f, t, x, y);
            } else {
                assert(pending_covers(top[top_base + row * 32 + c0], s, c0, t, col));
            }
        }
    }
}

/// Completeness of a side plane carries over to more faces and to a buffer
/// that agrees on the plane.
pub(crate) proof fn lemma_side_done_frame(
    c: Seq<u32>,
    fs1: Seq<Face>,
    fs2: Seq<Face>,
    l1: Seq<u32>,
    l2: Seq<u32>,
    base: int,
    dir: u32,
    s: int,
)
    requires
        side_done(c, fs1, l1, base, dir, s),
        prefix_of(fs1, fs2),
        forall|j: int| 0 <= j < 1024 ==> #[trigger] l2[base + j] == l1[base + j],
    ensures
        side_done(c, fs2, l2, base, dir, s),
{
    assert forall|t: int, row: int, col: int|
        0 <= t < s && 0 <= row < 32 && 0 <= col < 32 && #[trigger] plane_value(c, dir, t, row, col) != 0 implies {
            ||| covered_by(fs2, dir, t, side_origin(dir, col, row).0, side_origin(dir, col, row).1)
            ||| exists|c0: int| 0 <= c0 < 32 && #[trigger] pending_covers(l2[base + row * 32 + c0], s, c0, t, col)
        } by {
        if covered_by(fs1, dir, t, side_origin(dir, col, row).0, side_origin(dir, col, row).1) {
            lemma_covered_prefix(fs1, fs2, dir, t, side_origin(dir, col, row).0, side_origin(dir, col, row).1);
        } else {
            let c0 = choose|c0: int| 0 <= c0 < 32 && #[trigger] pending_covers(l1[base + row * 32 + c0], s, c0, t, col);
            assert(l2[base + (row * 32 + c0)] == l1[base + (row * 32 + c0)]);
            assert(pending_covers(l2[base + row * 32 + c0], s, c0, t, col));
        }
    }
}

pub(crate) proof fn lemma_side_progress_done(c: Seq<u32>, fs: Seq<Face>, l: Seq<u32>, top: Seq<u32>, base: int, top_base: int, dir: u32, s: int)
    requires
        side_progress(c, fs, l, top, base, top_base, dir, s, 1024),
    ensures
        side_done(c, fs, l, base, dir, s + 1),
{
    assert forall|t: int, row: int, col: int|
        0 <= t < s + 1 && 0 <= row < 32 && 0 <= col < 32 && #[trigger] plane_value(c, dir, t, row, col) != 0 implies {
            ||| covered_by(fs, dir, t, side_origin(dir, col, row).0, side_origin(dir, col, row).1)
            ||| exists|c0: int| 0 <= c0 < 32 && #[trigger] pending_covers(l[base + row * 32 + c0], s + 1, c0, t, col)
        } by {
        if !covered_by(fs, dir, t, side_origin(dir, col, row).0, side_origin(dir, col, row).1)
            && !(exists|c0: int| 0 <= c0 < 32 && #[trigger] pending_covers(l[base + row * 32 + c0], s + 1, c0, t, col)) {
            let c0 = choose|c0: int|
                0 <= c0 < 32 && row * 32 + c0 >= 1024 && #[trigger] pending_covers(top[top_base + row * 32 + c0], s, c0, t, col);
            assert(false);
        }
    }
}

/// The drawn faces of rows `0 .. y` of the flat plane of `dir` in slab `t` are
/// each covered by an emitted face or by a pending cell of the row at `base` of `l`.
pub open spec fn flat_done(c: Seq<u32>, fs: Seq<Face>, l: Seq<u32>, base: int, dir: u32, t: int, y: int) -> bool {
    forall|r: int, col: int|
        0 <= r < y && 0 <= col < 32 && #[trigger] plane_value(c, dir, t, r, col) != 0 ==> {
            ||| covered_by(fs, dir, t, plane_origin(dir, col, r).0, plane_origin(dir, col, r).1)
            ||| exists|c0: int| 0 <= c0 < 32 && #[trigger] pending_covers(l[base + c0], y, c0, r, col)
        }
}

/// Midway through merging row `y` of a flat plane into the pending row.
pub open spec fn flat_progress(
    c: Seq<u32>,
    fs: Seq<Face>,
    l: Seq<u32>,
    top: Seq<u32>,
    base: int,
    top_base: int,
    dir: u32,
    t: int,
    y: int,
    i: int,
) -> bool {
    forall|r: int, col: int|
        0 <= r <= y && 0 <= col < 32 && #[trigger] plane_value(c, dir, t, r, col) != 0 ==> {
            ||| covered_by(fs, dir, t, plane_origin(dir, col, r).0, plane_origin(dir, col, r).1)
            ||| exists|c0: int| 0 <= c0 < 32 && c0 >= i && #[trigger] pending_covers(top[top_base + c0], y, c0, r, col)
            ||| exists|c0: int| 0 <= c0 < 32 && #[trigger] pending_covers(l[base + c0], y + 1, c0, r, col)
        }
}

pub(crate) proof fn lemma_flat_step_skip(c: Seq<u32>, fs: Seq<Face>, l: Seq<u32>, top: Seq<u32>, base: int, top_base: int, dir: u32, t: int, y: int, i: int)
    requires
        flat_progress(c, fs, l, top, base, top_base, dir, t, y, i),
        0 <= i < 32,
        top[top_base + i] == 0,
    ensures
        flat_progress(c, fs, l, top, base, top_base, dir, t, y, i + 1),
{
    assert forall|r: int, col: int|
        0 <= r <= y && 0 <= col < 32 && #[trigger] plane_value(c, dir, t, r, col) != 0 implies {
            ||| covered_by(fs, dir, t, plane_origin(dir, col, r).0, plane_origin(dir, col, r).1)
            ||| exists|c0: int| 0 <= c0 < 32 && c0 >= i + 1 && #[trigger] pending_covers(top[top_base + c0], y, c0, r, col)
            ||| exists|c0: int| 0 <= c0 < 32 && #[trigger] pending_covers(l[base + c0], y + 1, c0, r, col)
        } by {
        if !covered_by(fs, dir, t, plane_origin(dir, col, r).0, plane_origin(dir, col, r).1)
            && !(exists|c0: int| 0 <= c0 < 32 && #[trigger] pending_covers(l[base + c0], y + 1, c0, r, col)) {
            let c0 = choose|c0: int| 0 <= c0 < 32 && c0 >= i && #[trigger] pending_covers(top[top_base + c0], y, c0, r, col);
            assert(c0 != i);
        }
    }
}

pub(crate) proof fn lemma_flat_step_grow(
    c: Seq<u32>,
    fs: Seq<Face>,
    l: Seq<u32>,
    top: Seq<u32>,
    base: int,
    top_base: int,
    dir: u32,
    t: int,
    y: int,
    i: int,
    g: u32,
)
    requires
        flat_progress(c, fs, l, top, base, top_base, dir, t, y, i),
        0 <= i < 32,
        top[top_base + i] != 0,
        cell_height(l[base + i]) <= 1,
        g != 0,
        cell_width(g) == cell_width(top[top_base + i]),
        cell_width(g) == cell_width(l[base + i]),
        cell_height(g) == cell_height(top[top_base + i]) + 1,
        0 <= base,
        base + 32 <= l.len(),
    ensures
        flat_progress(c, fs, l.update(base + i, g), top, base, top_base, dir, t, y, i + 1),
{
    let l1 = l.update(base + i, g);
    assert forall|r: int, col: int|
        0 <= r <= y && 0 <= col < 32 && #[trigger] plane_value(c, dir, t, r, col) != 0 implies {
            ||| covered_by(fs, dir, t, plane_origin(dir, col, r).0, plane_origin(dir, col, r).1)
            ||| exists|c0: int| 0 <= c0 < 32 && c0 >= i + 1 && #[trigger] pending_covers(top[top_base + c0], y, c0, r, col)
            ||| exists|c0: int| 0 <= c0 < 32 && #[trigger] pending_covers(l1[base + c0], y + 1, c0, r, col)
        } by {
        if !covered_by(fs, dir, t, plane_origin(dir, col, r).0, plane_origin(dir, col, r).1) {
            if exists|c0: int| 0 <= c0 < 32 && #[trigger] pending_covers(l[base + c0], y + 1, c0, r, col) {
                let c0 = choose|c0: int| 0 <= c0 < 32 && #[trigger] pending_covers(l[base + c0], y + 1, c0, r, col);
                if c0 == i {
                    assert(pending_covers(l1[base + c0], y + 1, c0, r, col));
                } else {
                    assert(l1[base + c0] == l[base + c0]);
                    assert(pending_covers(l1[base + c0], y + 1, c0, r, col));
                }
            } else {
                let c0 = choose|c0: int| 0 <= c0 < 32 && c0 >= i && #[trigger] pending_covers(top[top_base + c0], y, c0, r, col);
                if c0 == i {
                    assert(pending_covers(l1[base + c0], y + 1, c0, r, col));
                } else {
                    assert(pending_covers(top[top_base + c0], y, c0, r, col));
                }
            }
        }
    }
}

pub(crate) proof fn lemma_flat_step_emit(
    c: Seq<u32>,
    fs: Seq<Face>,
    l: Seq<u32>,
    top: Seq<u32>,
    base: int,
    top_base: int,
    dir: u32,
    t: int,
    y: int,
    i: int,
    f: Face,
)
    requires
        flat_progress(c, fs, l, top, base, top_base, dir, t, y, i),
        0 <= i < 32,
        top[top_base + i] != 0,
        f.dir == dir,
        forall|r: int, col: int|
            pending_covers(top[top_base + i], y, i, r, col) && 0 <= col < 32 ==> #[trigger] covers(
                f,
                t,
                plane_origin(dir, col, r).0,
                plane_origin(dir, col, r).1,
            ),
    ensures
        flat_progress(c, fs.push(f), l, top, base, top_base, dir, t, y, i + 1),
{
    let fs1 = fs.push(f);
    assert forall|r: int, col: int|
        0 <= r <= y && 0 <= col < 32 && #[trigger] plane_value(c, dir, t, r, col) != 0 implies {
            ||| covered_by(fs1, dir, t, plane_origin(dir, col, r).0, plane_origin(dir, col, r).1)
            ||| exists|c0: int| 0 <= c0 < 32 && c0 >= i + 1 && #[trigger] pending_covers(top[top_base + c0], y, c0, r, col)
            ||| exists|c0: int| 0 <= c0 < 32 && #[trigger] pending_covers(l[base + c0], y + 1, c0, r, col)
        } by {
        let (x, yy) = plane_origin(dir, col, r);
        if covered_by(fs, dir, t, x, yy) {
            lemma_covered_push(fs, f, dir, t, x, yy);
        } else if !(exists|c0: int| 0 <= c0 < 32 && #[trigger] pending_covers(l[base + c0], y + 1, c0, r, col)) {
            let c0 = choose|c0: int| 0 <= c0 < 32 && c0 >= i && #[trigger] pending_covers(top[top_base + c0], y, c0, r, col);
            if c0 == i {
                assert(covers(f, t, x, yy));
                lemma_covered_last(fs, f, t, x, yy);
            } else {
                assert(pending_covers(top[top_base + c0], y, c0, r, col));
            }
        }
    }
}

pub(crate) proof fn lemma_flat_progress_done(c: Seq<u32>, fs: Seq<Face>, l: Seq<u32>, top: Seq<u32>, base: int, top_base: int, dir: u32, t: int, y: int)
    requires
        flat_progress(c, fs, l, top, base, top_base, dir, t, y, 32),
    ensures
        flat_done(c, fs, l, base, dir, t, y + 1),
{
    assert forall|r: int, col: int|
        0 <= r < y + 1 && 0 <= col < 32 && #[trigger] plane_value(c, dir, t, r, col) != 0 implies {
            ||| covered_by(fs, dir, t, plane_origin(dir, col, r).0, plane_origin(dir, col, r).1)
            ||| exists|c0: int| 0 <= c0 < 32 && #[trigger] pending_covers(l[base + c0], y + 1, c0, r, col)
        } by {
        if !covered_by(fs, dir, t, plane_origin(dir, col, r).0, plane_origin(dir, col, r).1)
            && !(exists|c0: int| 0 <= c0 < 32 && #[trigger] pending_covers(l[base + c0], y + 1, c0, r, col)) {
            let c0 = choose|c0: int| 0 <= c0 < 32 && c0 >= 32 && #[trigger] pending_covers(top[top_base + c0], y, c0, r, col);
            assert(false);
        }
    }
}

/// While flushing the pending row of a flat plane: each drawn face is covered
/// by an emitted face or by a pending cell not yet flushed.
pub open spec fn flat_flush_progress(c: Seq<u32>, fs: Seq<Face>, l: Seq<u32>, base: int, dir: u32, t: int, i: int) -> bool {
    forall|r: int, col: int|
        0 <= r < 32 && 0 <= col < 32 && #[trigger] plane_value(c, dir, t, r, col) != 0 ==> {
            ||| covered_by(fs, dir, t, plane_origin(dir, col, r).0, plane_origin(dir, col, r).1)
            ||| exists|c0: int| 0 <= c0 < 32 && c0 >= i && #[trigger] pending_covers(l[base + c0], 32, c0, r, col)
        }
}

pub(crate) proof fn lemma_flat_flush_step(c: Seq<u32>, fs: Seq<Face>, fs2: Seq<Face>, l: Seq<u32>, base: int, dir: u32, t: int, i: int)
    requires
        flat_flush_progress(c, fs, l, base, dir, t, i),
        prefix_of(fs, fs2),
        0 <= i < 32,
        forall|r: int, col: int|
            pending_covers(l[base + i], 32, i, r, col) && 0 <= col < 32 ==> #[trigger] covered_by(
                fs2,
                dir,
                t,
                plane_origin(dir, col, r).0,
                plane_origin(dir, col, r).1,
            ),
    ensures
        flat_flush_progress(c, fs2, l, base, dir, t, i + 1),
{
    assert forall|r: int, col: int|
        0 <= r < 32 && 0 <= col < 32 && #[trigger] plane_value(c, dir, t, r, col) != 0 implies {
            ||| covered_by(fs2, dir, t, plane_origin(dir, col, r).0, plane_origin(dir, col, r).1)
            ||| exists|c0: int| 0 <= c0 < 32 && c0 >= i + 1 && #[trigger] pending_covers(l[base + c0], 32, c0, r, col)
        } by {
        if covered_by(fs, dir, t, plane_origin(dir, col, r).0, plane_origin(dir, col, r).1) {
            lemma_covered_prefix(fs, fs2, dir, t, plane_origin(dir, col, r).0, plane_origin(dir, col, r).1);
        } else {
            let c0 = choose|c0: int| 0 <= c0 < 32 && c0 >= i && #[trigger] pending_covers(l[base + c0], 32, c0, r, col);
            if c0 != i {
                assert(pending_covers(l[base + c0], 32, c0, r, col));
            }
        }
    }
}

/// While flushing a side plane after the last slab.
pub open spec fn side_flush_progress(c: Seq<u32>, fs: Seq<Face>, l: Seq<u32>, base: int, dir: u32, i: int) -> bool {
    forall|t: int, row: int, col: int|
        0 <= t < 32 && 0 <= row < 32 && 0 <= col < 32 && #[trigger] plane_value(c, dir, t, row, col) != 0 ==> {
            ||| covered_by(fs, dir, t, side_origin(dir, col, row).0, side_origin(dir, col, row).1)
            ||| exists|c0: int| 0 <= c0 < 32 && row * 32 + c0 >= i && #[trigger] pending_covers(l[base + row * 32 + c0], 32, c0, t, col)
        }
}

pub(crate) proof fn lemma_side_flush_step(c: Seq<u32>, fs: Seq<Face>, fs2: Seq<Face>, l: Seq<u32>, base: int, dir: u32, i: int)
    requires
        side_flush_progress(c, fs, l, base, dir, i),
        prefix_of(fs, fs2),
        0 <= i < 1024,
        forall|t: int, col: int|
            pending_covers(l[base + i], 32, i % 32, t, col) && 0 <= col < 32 ==> #[trigger] covered_by(
                fs2,
                dir,
                t,
                side_origin(dir, col, i / 32).0,
                side_origin(dir, col, i / 32).1,
            ),
    ensures
        side_flush_progress(c, fs2, l, base, dir, i + 1),
{
    assert forall|t: int, row: int, col: int|
        0 <= t < 32 && 0 <= row < 32 && 0 <= col < 32 && #[trigger] plane_value(c, dir, t, row, col) != 0 implies {
            ||| covered_by(fs2, dir, t, side_origin(dir, col, row).0, side_origin(dir, col, row).1)
            ||| exists|c0: int| 0 <= c0 < 32 && row * 32 + c0 >= i + 1 && #[trigger] pending_covers(l[base + row * 32 + c0], 32, c0, t, col)
        } by {
        if covered_by(fs, dir, t, side_origin(dir, col, row).0, side_origin(dir, col, row).1) {
            lemma_covered_prefix(fs, fs2, dir, t, side_origin(dir, col, row).0, side_origin(dir, col, row).1);
        } else {
            let c0 = choose|c0: int| 0 <= c0 < 32 && row * 32 + c0 >= i && #[trigger] pending_covers(l[base + row * 32 + c0], 32, c0, t, col);
            if row * 32 + c0 == i {
                lemma_plane_col(row, c0);
                assert(covered_by(fs2, dir, t, side_origin(dir, col, row).0, side_origin(dir, col, row).1));
            } else {
                assert(pending_covers(l[base + row * 32 + c0], 32, c0, t, col));
            }
        }
    }
}

/// The drawn `UP` and `DOWN` faces of slabs `0 .. n` are all covered by emitted faces.
pub open spec fn flat_covered_upto(c: Seq<u32>, fs: Seq<Face>, n: int) -> bool {
    forall|d: u32, t: int, r: int, col: int|
        (d == 0 || d == 5) && 0 <= t < n && 0 <= r < 32 && 0 <= col < 32 && #[trigger] plane_value(c, d, t, r, col) != 0
            ==> covered_by(fs, d, t, plane_origin(d, col, r).0, plane_origin(d, col, r).1)
}

/// The drawn faces of all slabs of the side plane of `dir` are covered by emitted faces.
pub open spec fn side_covered(c: Seq<u32>, fs: Seq<Face>, dir: u32) -> bool {
    forall|t: int, row: int, col: int|
        0 <= t < 32 && 0 <= row < 32 && 0 <= col < 32 && #[trigger] plane_value(c, dir, t, row, col) != 0 ==> covered_by(
            fs,
            dir,
            t,
            side_origin(dir, col, row).0,
            side_origin(dir, col, row).1,
        )
}

pub(crate) proof fn lemma_flat_covered_prefix(c: Seq<u32>, fs1: Seq<Face>, fs2: Seq<Face>, n: int)
    requires
        flat_covered_upto(c, fs1, n),
        prefix_of(fs1, fs2),
    ensures
        flat_covered_upto(c, fs2, n),
{
    assert forall|d: u32, t: int, r: int, col: int|
        (d == 0 || d == 5) && 0 <= t < n && 0 <= r < 32 && 0 <= col < 32 && #[trigger] plane_value(c, d, t, r, col) != 0
            implies covered_by(fs2, d, t, plane_origin(d, col, r).0, plane_origin(d, col, r).1) by {
        lemma_covered_prefix(fs1, fs2, d, t, plane_origin(d, col, r).0, plane_origin(d, col, r).1);
    }
}

pub(crate) proof fn lemma_side_covered_prefix(c: Seq<u32>, fs1: Seq<Face>, fs2: Seq<Face>, dir: u32)
    requires
        side_covered(c, fs1, dir),
        prefix_of(fs1, fs2),
    ensures
        side_covered(c, fs2, dir),
{
    assert forall|t: int, row: int, col: int|
        0 <= t < 32 && 0 <= row < 32 && 0 <= col < 32 && #[trigger] plane_value(c, dir, t, row, col) != 0 implies covered_by(
            fs2,
            dir,
            t,
            side_origin(dir, col, row).0,
            side_origin(dir, col, row).1,
        ) by {
        lemma_covered_prefix(fs1, fs2, dir, t, side_origin(dir, col, row).0, side_origin(dir, col, row).1);
    }
}

/// No face of `fs` covers a cell of a pending rectangle of the side plane at
/// `base` (with `s` slabs done) whose flat index lies in `lo .. hi`.
pub open spec fn side_free(fs: Seq<Face>, l: Seq<u32>, base: int, dir: u32, s: int, lo: int, hi: int) -> bool {
    forall|row: int, c0: int, t: int, col: int|
        0 <= row < 32 && 0 <= c0 < 32 && lo <= row * 32 + c0 < hi && 0 <= t < 32 && 0 <= col < 32
            && #[trigger] pending_covers(l[base + row * 32 + c0], s, c0, t, col) ==> !covered_by(
            fs,
            dir,
            t,
            side_origin(dir, col, row).0,
            side_origin(dir, col, row).1,
        )
}

/// The faces of `fs` of direction `dir` cover only slabs below `s`.
pub open spec fn side_below(fs: Seq<Face>, dir: u32, s: int) -> bool {
    forall|k: int, t: int, x: int, y: int|
        0 <= k < fs.len() && fs[k].dir == dir && 0 <= t < 32 && 0 <= x < 32 && 0 <= y < 32 && #[trigger] covers(
            fs[k],
            t,
            x,
            y,
        ) ==> t < s
}

/// The pending rectangles of each row of the side plane at `base` do not overlap.
pub open spec fn rows_apart(l: Seq<u32>, base: int) -> bool {
    forall|row: int, c0: int, c1: int|
        0 <= row < 32 && 0 <= c0 < c1 < 32 && #[trigger] l[base + row * 32 + c0] != 0 && #[trigger] l[base + row * 32
            + c1] != 0 ==> c0 + cell_width(l[base + row * 32 + c0]) <= c1
}

/// Midway through merging slab `s` of a side plane, cells that faces cover are kept apart.
pub open spec fn side_merge_apart(
    fs: Seq<Face>,
    l: Seq<u32>,
    top: Seq<u32>,
    merged: Seq<u32>,
    base: int,
    top_base: int,
    dir: u32,
    s: int,
    i: int,
) -> bool {
    &&& side_free(fs, top, top_base, dir, s, i, 1024)
    &&& side_free(fs, l, base, dir, s + 1, 0, 1024)
    &&& side_below(fs, dir, s)
    &&& rows_apart(top, top_base)
    &&& rows_apart(merged, base)
    &&& forall|k: int|
        0 <= k < 1024 ==> cell_width(#[trigger] l[base + k]) == cell_width(merged[base + k]) && (l[base + k] != 0
            <==> merged[base + k] != 0)
    &&& forall|k: int| i <= k < 1024 ==> #[trigger] l[base + k] == merged[base + k]
    &&& forall|k: int| 0 <= k < 1024 ==> cell_height(#[trigger] merged[base + k]) <= 1
    &&& forall|row: int, c0: int, t: int, col: int|
        0 <= row < 32 && 0 <= c0 < 32 && row * 32 + c0 < i && t < s && #[trigger] pending_covers(
            l[base + row * 32 + c0],
            s + 1,
            c0,
            t,
            col,
        ) ==> pending_covers(top[top_base + row * 32 + c0], s, c0, t, col)
    &&& faces_disjoint(fs)
}

pub(crate) proof fn lemma_side_apart_skip(
    fs: Seq<Face>,
    l: Seq<u32>,
    top: Seq<u32>,
    merged: Seq<u32>,
    base: int,
    top_base: int,
    dir: u32,
    s: int,
    i: int,
)
    requires
        side_merge_apart(fs, l, top, merged, base, top_base, dir, s, i),
        0 <= i < 1024,
    ensures
        side_merge_apart(fs, l, top, merged, base, top_base, dir, s, i + 1),
{
    assert forall|row: int, c0: int, t: int, col: int|
        0 <= row < 32 && 0 <= c0 < 32 && row * 32 + c0 < i + 1 && t < s && #[trigger] pending_covers(
            l[base + row * 32 + c0],
            s + 1,
            c0,
            t,
            col,
        ) implies pending_covers(top[top_base + row * 32 + c0], s, c0, t, col) by {
        if row * 32 + c0 == i {
            assert(l[base + (row * 32 + c0)] == merged[base + (row * 32 + c0)]);
            assert(cell_height(merged[base + (row * 32 + c0)]) <= 1);
        }
    }
}

pub(crate) proof fn lemma_side_apart_grow(
    fs: Seq<Face>,
    l: Seq<u32>,
    top: Seq<u32>,
    merged: Seq<u32>,
    base: int,
    top_base: int,
    dir: u32,
    s: int,
    i: int,
    g: u32,
)
    requires
        side_merge_apart(fs, l, top, merged, base, top_base, dir, s, i),
        0 <= i < 1024,
        0 <= base,
        base + 1024 <= l.len(),
        top[top_base + i] != 0,
        g != 0,
        l[base + i] != 0,
        cell_width(g) == cell_width(top[top_base + i]),
        cell_width(g) == cell_width(l[base + i]),
        cell_height(g) == cell_height(top[top_base + i]) + 1,
    ensures
        side_merge_apart(fs, l.update(base + i, g), top, merged, base, top_base, dir, s, i + 1),
{
    let l1 = l.update(base + i, g);
    assert forall|k: int|
        0 <= k < 1024 implies cell_width(#[trigger] l1[base + k]) == cell_width(merged[base + k]) && (l1[base + k] != 0
            <==> merged[base + k] != 0) by {
        if k != i {
            assert(l1[base + k] == l[base + k]);
        }
        assert(cell_width(l[base + k]) == cell_width(merged[base + k]));
    }
    assert forall|k: int| i + 1 <= k < 1024 implies #[trigger] l1[base + k] == merged[base + k] by {
        assert(l1[base + k] == l[base + k]);
    }
    assert forall|row: int, c0: int, t: int, col: int|
        0 <= row < 32 && 0 <= c0 < 32 && row * 32 + c0 < i + 1 && t < s && #[trigger] pending_covers(
            l1[base + row * 32 + c0],
            s + 1,
            c0,
            t,
            col,
        ) implies pending_covers(top[top_base + row * 32 + c0], s, c0, t, col) by {
        if row * 32 + c0 != i {
            assert(l1[base + row * 32 + c0] == l[base + row * 32 + c0]);
        }
    }
    assert forall|row: int, c0: int, t: int, col: int|
        0 <= row < 32 && 0 <= c0 < 32 && 0 <= row * 32 + c0 < 1024 && 0 <= t < 32 && 0 <= col < 32
            && #[trigger] pending_covers(l1[base + row * 32 + c0], s + 1, c0, t, col) implies !covered_by(
            fs,
            dir,
            t,
            side_origin(dir, col, row).0,
            side_origin(dir, col, row).1,
        ) by {
        if row * 32 + c0 == i {
            if t < s {
                assert(pending_covers(top[top_base + row * 32 + c0], s, c0, t, col));
            } else if covered_by(fs, dir, t, side_origin(dir, col, row).0, side_origin(dir, col, row).1) {
                let k = choose|k: int|
                    0 <= k < fs.len() && fs[k].dir == dir && #[trigger] covers(
                        fs[k],
                        t,
                        side_origin(dir, col, row).0,
                        side_origin(dir, col, row).1,
                    );
                lemma_plane_pos_side(dir, col, row);
                lemma_side_origin_range(dir, col, row);
            }
        } else {
            assert(l1[base + row * 32 + c0] == l[base + row * 32 + c0]);
        }
    }
}

pub(crate) proof fn lemma_side_apart_emit(
    fs: Seq<Face>,
    l: Seq<u32>,
    top: Seq<u32>,
    merged: Seq<u32>,
    base: int,
    top_base: int,
    dir: u32,
    s: int,
    i: int,
    f: Face,
)
    requires
        side_merge_apart(fs, l, top, merged, base, top_base, dir, s, i),
        0 <= i < 1024,
        1 <= dir <= 4,
        f.dir == dir,
        forall|t: int, x: int, y: int|
            0 <= t < 32 && 0 <= x < 32 && 0 <= y < 32 && #[trigger] covers(f, t, x, y) ==> {
                &&& pending_covers(top[top_base + i], s, i % 32, t, plane_pos(dir, x, y).0)
                &&& plane_pos(dir, x, y).1 == i / 32
                &&& 0 <= plane_pos(dir, x, y).0 < 32
                &&& side_origin(dir, plane_pos(dir, x, y).0, i / 32) == (x, y)
            },
    ensures
        side_merge_apart(fs.push(f), l, top, merged, base, top_base, dir, s, i + 1),
{
    let fs1 = fs.push(f);
    lemma_plane_col(i / 32, i % 32);
    assert(fresh(fs, f)) by {
        assert forall|t: int, x: int, y: int|
            0 <= t < 32 && 0 <= x < 32 && 0 <= y < 32 && #[trigger] covers(f, t, x, y) implies !covered_by(fs, f.dir, t, x, y) by {
            let col = plane_pos(dir, x, y).0;
            assert(pending_covers(top[top_base + (i / 32) * 32 + i % 32], s, i % 32, t, col));
        }
    }
    lemma_disjoint_push(fs, f);
    assert forall|k: int, t: int, x: int, y: int|
        0 <= k < fs1.len() && fs1[k].dir == dir && 0 <= t < 32 && 0 <= x < 32 && 0 <= y < 32 && #[trigger] covers(
            fs1[k],
            t,
            x,
            y,
        ) implies t < s by {
        if k < fs.len() {
            assert(fs1[k] == fs[k]);
        }
    }
    assert forall|row: int, c0: int, t: int, col: int|
        0 <= row < 32 && 0 <= c0 < 32 && i + 1 <= row * 32 + c0 < 1024 && 0 <= t < 32 && 0 <= col < 32
            && #[trigger] pending_covers(top[top_base + row * 32 + c0], s, c0, t, col) implies !covered_by(
            fs1,
            dir,
            t,
            side_origin(dir, col, row).0,
            side_origin(dir, col, row).1,
        ) by {
        let (x, y) = side_origin(dir, col, row);
        lemma_side_origin_range(dir, col, row);
        lemma_plane_pos_side(dir, col, row);
        if covered_by(fs1, dir, t, x, y) {
            lemma_covered_split(fs, f, dir, t, x, y);
            if covers(f, t, x, y) {
                let ci = i % 32;
                assert(row == i / 32);
                assert(top[top_base + row * 32 + ci] != 0);
                if ci < c0 {
                    assert(ci + cell_width(top[top_base + row * 32 + ci]) <= c0);
                } else {
                    assert(c0 + cell_width(top[top_base + row * 32 + c0]) <= ci);
                }
            }
        }
    }
    assert forall|row: int, c0: int, t: int, col: int|
        0 <= row < 32 && 0 <= c0 < 32 && 0 <= row * 32 + c0 < 1024 && 0 <= t < 32 && 0 <= col < 32
            && #[trigger] pending_covers(l[base + row * 32 + c0], s + 1, c0, t, col) implies !covered_by(
            fs1,
            dir,
            t,
            side_origin(dir, col, row).0,
            side_origin(dir, col, row).1,
        ) by {
        let (x, y) = side_origin(dir, col, row);
        lemma_side_origin_range(dir, col, row);
        lemma_plane_pos_side(dir, col, row);
        if covered_by(fs1, dir, t, x, y) {
            lemma_covered_split(fs, f, dir, t, x, y);
            if covers(f, t, x, y) {
                let ci = i % 32;
                assert(row == i / 32);
                assert(t < s);
                if row * 32 + c0 < i {
                    assert(pending_covers(top[top_base + row * 32 + c0], s, c0, t, col));
                    assert(top[top_base + row * 32 + ci] != 0);
                    if ci < c0 {
                        assert(ci + cell_width(top[top_base + row * 32 + ci]) <= c0);
                    } else {
                        assert(c0 + cell_width(top[top_base + row * 32 + c0]) <= ci);
                    }
                } else {
                    assert(l[base + (row * 32 + c0)] == merged[base + (row * 32 + c0)]);
                    assert(cell_height(merged[base + (row * 32 + c0)]) <= 1);
                }
            }
        }
    }
    assert forall|row: int, c0: int, t: int, col: int|
        0 <= row < 32 && 0 <= c0 < 32 && row * 32 + c0 < i + 1 && t < s && #[trigger] pending_covers(
            l[base + row * 32 + c0],
            s + 1,
            c0,
            t,
            col,
        ) implies pending_covers(top[top_base + row * 32 + c0], s, c0, t, col) by {
        if row * 32 + c0 == i {
            assert(l[base + (row * 32 + c0)] == merged[base + (row * 32 + c0)]);
            assert(cell_height(merged[base + (row * 32 + c0)]) <= 1);
        }
    }
}

pub(crate) proof fn lemma_side_free_frame(a: Seq<Face>, b: Seq<Face>, d: u32, l: Seq<u32>, base: int, dir: u32, s: int, lo: int, hi: int)
    requires
        side_free(a, l, base, dir, s, lo, hi),
        prefix_of(a, b),
        added_dir(a, b, d),
        d != dir,
    ensures
        side_free(b, l, base, dir, s, lo, hi),
{
    assert forall|row: int, c0: int, t: int, col: int|
        0 <= row < 32 && 0 <= c0 < 32 && lo <= row * 32 + c0 < hi && 0 <= t < 32 && 0 <= col < 32
            && #[trigger] pending_covers(l[base + row * 32 + c0], s, c0, t, col) implies !covered_by(
            b,
            dir,
            t,
            side_origin(dir, col, row).0,
            side_origin(dir, col, row).1,
        ) by {
        if covered_by(b, dir, t, side_origin(dir, col, row).0, side_origin(dir, col, row).1) {
            lemma_covered_other_dir(a, b, d, dir, t, side_origin(dir, col, row).0, side_origin(dir, col, row).1);
        }
    }
}

pub(crate) proof fn lemma_side_below_frame(a: Seq<Face>, b: Seq<Face>, d: u32, dir: u32, s: int)
    requires
        side_below(a, dir, s),
        prefix_of(a, b),
        added_dir(a, b, d),
        d != dir,
    ensures
        side_below(b, dir, s),
{
    assert forall|k: int, t: int, x: int, y: int|
        0 <= k < b.len() && b[k].dir == dir && 0 <= t < 32 && 0 <= x < 32 && 0 <= y < 32 && #[trigger] covers(b[k], t, x, y)
            implies t < s by {
        assert(k < a.len());
        assert(b[k] == a[k]);
    }
}

pub(crate) proof fn lemma_side_flush_apart(fs: Seq<Face>, l: Seq<u32>, base: int, dir: u32, i: int, f: Face)
    requires
        side_free(fs, l, base, dir, 32, i, 1024),
        rows_apart(l, base),
        faces_disjoint(fs),
        0 <= i < 1024,
        1 <= dir <= 4,
        f.dir == dir,
        l[base + i] != 0,
        forall|t: int, x: int, y: int|
            0 <= t < 32 && 0 <= x < 32 && 0 <= y < 32 && #[trigger] covers(f, t, x, y) ==> {
                &&& pending_covers(l[base + i], 32, i % 32, t, plane_pos(dir, x, y).0)
                &&& plane_pos(dir, x, y).1 == i / 32
                &&& 0 <= plane_pos(dir, x, y).0 < 32
                &&& side_origin(dir, plane_pos(dir, x, y).0, i / 32) == (x, y)
            },
    ensures
        side_free(fs.push(f), l, base, dir, 32, i + 1, 1024),
        faces_disjoint(fs.push(f)),
{
    let fs1 = fs.push(f);
    lemma_plane_col(i / 32, i % 32);
    assert(fresh(fs, f)) by {
        assert forall|t: int, x: int, y: int|
            0 <= t < 32 && 0 <= x < 32 && 0 <= y < 32 && #[trigger] covers(f, t, x, y) implies !covered_by(fs, f.dir, t, x, y) by {
            let col = plane_pos(dir, x, y).0;
            assert(pending_covers(l[base + (i / 32) * 32 + i % 32], 32, i % 32, t, col));
        }
    }
    lemma_disjoint_push(fs, f);
    assert forall|row: int, c0: int, t: int, col: int|
        0 <= row < 32 && 0 <= c0 < 32 && i + 1 <= row * 32 + c0 < 1024 && 0 <= t < 32 && 0 <= col < 32
            && #[trigger] pending_covers(l[base + row * 32 + c0], 32, c0, t, col) implies !covered_by(
            fs1,
            dir,
            t,
            side_origin(dir, col, row).0,
            side_origin(dir, col, row).1,
        ) by {
        let (x, y) = side_origin(dir, col, row);
        lemma_side_origin_range(dir, col, row);
        lemma_plane_pos_side(dir, col, row);
        if covered_by(fs1, dir, t, x, y) {
            lemma_covered_split(fs, f, dir, t, x, y);
            if covers(f, t, x, y) {
                let ci = i % 32;
                assert(row == i / 32);
                assert(l[base + row * 32 + ci] != 0);
                if ci < c0 {
                    assert(ci + cell_width(l[base + row * 32 + ci]) <= c0);
                } else {
                    assert(c0 + cell_width(l[base + row * 32 + c0]) <= ci);
                }
            }
        }
    }
}

/// No face of `fs` covers a cell of a pending rectangle of the flat row at
/// `base` (slab `t`, rows `0 .. y` done) whose column lies in `lo .. hi`.
pub open spec fn flat_free(fs: Seq<Face>, l: Seq<u32>, base: int, dir: u32, t: int, y: int, lo: int, hi: int) -> bool {
    forall|c0: int, r: int, col: int|
        0 <= c0 < 32 && lo <= c0 < hi && 0 <= r < 32 && 0 <= col < 32 && #[trigger] pending_covers(l[base + c0], y, c0, r, col)
            ==> !covered_by(fs, dir, t, plane_origin(dir, col, r).0, plane_origin(dir, col, r).1)
}

/// The faces of `fs` of direction `dir` cover only slabs below `t`, or rows
/// below `y` of slab `t`.
pub open spec fn flat_below(fs: Seq<Face>, dir: u32, t: int, y: int) -> bool {
    forall|k: int, tt: int, x: int, yy: int|
        0 <= k < fs.len() && fs[k].dir == dir && 0 <= tt < 32 && 0 <= x < 32 && 0 <= yy < 32 && #[trigger] covers(
            fs[k],
            tt,
            x,
            yy,
        ) ==> tt < t || (tt == t && plane_pos(dir, x, yy).1 < y)
}

/// The pending rectangles of the row at `base` do not overlap.
pub open spec fn row_apart(l: Seq<u32>, base: int) -> bool {
    forall|c0: int, c1: int|
        0 <= c0 < c1 < 32 && #[trigger] l[base + c0] != 0 && #[trigger] l[base + c1] != 0 ==> c0 + cell_width(l[base + c0]) <= c1
}

/// Midway through merging row `y` of a flat plane of slab `t`, cells that faces cover are kept apart.
pub open spec fn flat_merge_apart(
    fs: Seq<Face>,
    l: Seq<u32>,
    top: Seq<u32>,
    merged: Seq<u32>,
    base: int,
    top_base: int,
    dir: u32,
    t: int,
    y: int,
    i: int,
) -> bool {
    &&& flat_free(fs, top, top_base, dir, t, y, i, 32)
    &&& flat_free(fs, l, base, dir, t, y + 1, 0, 32)
    &&& flat_below(fs, dir, t, y)
    &&& row_apart(top, top_base)
    &&& row_apart(merged, base)
    &&& forall|k: int|
        0 <= k < 32 ==> cell_width(#[trigger] l[base + k]) == cell_width(merged[base + k]) && (l[base + k] != 0 <==> merged[base
            + k] != 0)
    &&& forall|k: int| i <= k < 32 ==> #[trigger] l[base + k] == merged[base + k]
    &&& forall|k: int| 0 <= k < 32 ==> cell_height(#[trigger] merged[base + k]) <= 1
    &&& forall|c0: int, r: int, col: int|
        0 <= c0 < i && r < y && #[trigger] pending_covers(l[base + c0], y + 1, c0, r, col) ==> pending_covers(
            top[top_base + c0],
            y,
            c0,
            r,
            col,
        )
    &&& faces_disjoint(fs)
}

pub(crate) proof fn lemma_flat_apart_skip(fs: Seq<Face>, l: Seq<u32>, top: Seq<u32>, merged: Seq<u32>, base: int, top_base: int, dir: u32, t: int, y: int, i: int)
    requires
        0 <= t < 32,
        flat_merge_apart(fs, l, top, merged, base, top_base, dir, t, y, i),
        0 <= i < 32,
    ensures
        flat_merge_apart(fs, l, top, merged, base, top_base, dir, t, y, i + 1),
{
    assert forall|c0: int, r: int, col: int|
        0 <= c0 < i + 1 && r < y && #[trigger] pending_covers(l[base + c0], y + 1, c0, r, col) implies pending_covers(
            top[top_base + c0],
            y,
            c0,
            r,
            col,
        ) by {
        if c0 == i {
            assert(l[base + c0] == merged[base + c0]);
            assert(cell_height(merged[base + c0]) <= 1);
        }
    }
}

pub(crate) proof fn lemma_flat_apart_grow(
    fs: Seq<Face>,
    l: Seq<u32>,
    top: Seq<u32>,
    merged: Seq<u32>,
    base: int,
    top_base: int,
    dir: u32,
    t: int,
    y: int,
    i: int,
    g: u32,
)
    requires
        0 <= t < 32,
        flat_merge_apart(fs, l, top, merged, base, top_base, dir, t, y, i),
        0 <= i < 32,
        0 <= base,
        base + 32 <= l.len(),
        dir == 0 || dir == 5,
        top[top_base + i] != 0,
        g != 0,
        l[base + i] != 0,
        cell_width(g) == cell_width(top[top_base + i]),
        cell_width(g) == cell_width(l[base + i]),
        cell_height(g) == cell_height(top[top_base + i]) + 1,
    ensures
        flat_merge_apart(fs, l.update(base + i, g), top, merged, base, top_base, dir, t, y, i + 1),
{
    let l1 = l.update(base + i, g);
    assert forall|k: int|
        0 <= k < 32 implies cell_width(#[trigger] l1[base + k]) == cell_width(merged[base + k]) && (l1[base + k] != 0
            <==> merged[base + k] != 0) by {
        if k != i {
            assert(l1[base + k] == l[base + k]);
        }
        assert(cell_width(l[base + k]) == cell_width(merged[base + k]));
    }
    assert forall|k: int| i + 1 <= k < 32 implies #[trigger] l1[base + k] == merged[base + k] by {
        assert(l1[base + k] == l[base + k]);
    }
    assert forall|c0: int, r: int, col: int|
        0 <= c0 < i + 1 && r < y && #[trigger] pending_covers(l1[base + c0], y + 1, c0, r, col) implies pending_covers(
            top[top_base + c0],
            y,
            c0,
            r,
            col,
        ) by {
        if c0 != i {
            assert(l1[base + c0] == l[base + c0]);
        }
    }
    assert forall|c0: int, r: int, col: int|
        0 <= c0 < 32 && 0 <= c0 < 32 && 0 <= r < 32 && 0 <= col < 32 && #[trigger] pending_covers(l1[base + c0], y + 1, c0, r, col)
            implies !covered_by(fs, dir, t, plane_origin(dir, col, r).0, plane_origin(dir, col, r).1) by {
        if c0 == i {
            if r < y {
                assert(pending_covers(top[top_base + c0], y, c0, r, col));
            } else if covered_by(fs, dir, t, plane_origin(dir, col, r).0, plane_origin(dir, col, r).1) {
                let k = choose|k: int|
                    0 <= k < fs.len() && fs[k].dir == dir && #[trigger] covers(
                        fs[k],
                        t,
                        plane_origin(dir, col, r).0,
                        plane_origin(dir, col, r).1,
                    );
                lemma_plane_pos_flat(dir, col, r);
            }
        } else {
            assert(l1[base + c0] == l[base + c0]);
        }
    }
}

pub(crate) proof fn lemma_flat_apart_emit(
    fs: Seq<Face>,
    l: Seq<u32>,
    top: Seq<u32>,
    merged: Seq<u32>,
    base: int,
    top_base: int,
    dir: u32,
    t: int,
    y: int,
    i: int,
    f: Face,
)
    requires
        0 <= t < 32,
        flat_merge_apart(fs, l, top, merged, base, top_base, dir, t, y, i),
        0 <= i < 32,
        dir == 0 || dir == 5,
        f.dir == dir,
        forall|tt: int, x: int, yy: int|
            0 <= tt < 32 && 0 <= x < 32 && 0 <= yy < 32 && #[trigger] covers(f, tt, x, yy) ==> {
                &&& tt == t
                &&& pending_covers(top[top_base + i], y, i, plane_pos(dir, x, yy).1, plane_pos(dir, x, yy).0)
                &&& 0 <= plane_pos(dir, x, yy).0 < 32
                &&& 0 <= plane_pos(dir, x, yy).1 < 32
                &&& plane_origin(dir, plane_pos(dir, x, yy).0, plane_pos(dir, x, yy).1) == (x, yy)
            },
    ensures
        flat_merge_apart(fs.push(f), l, top, merged, base, top_base, dir, t, y, i + 1),
{
    let fs1 = fs.push(f);
    assert(fresh(fs, f)) by {
        assert forall|tt: int, x: int, yy: int|
            0 <= tt < 32 && 0 <= x < 32 && 0 <= yy < 32 && #[trigger] covers(f, tt, x, yy) implies !covered_by(fs, f.dir, tt, x, yy) by {
            let (col, r) = plane_pos(dir, x, yy);
            assert(pending_covers(top[top_base + i], y, i, r, col));
        }
    }
    lemma_disjoint_push(fs, f);
    assert forall|k: int, tt: int, x: int, yy: int|
        0 <= k < fs1.len() && fs1[k].dir == dir && 0 <= tt < 32 && 0 <= x < 32 && 0 <= yy < 32 && #[trigger] covers(
            fs1[k],
            tt,
            x,
            yy,
        ) implies tt < t || (tt == t && plane_pos(dir, x, yy).1 < y) by {
        if k < fs.len() {
            assert(fs1[k] == fs[k]);
        }
    }
    assert forall|c0: int, r: int, col: int|
        0 <= c0 < 32 && i + 1 <= c0 < 32 && 0 <= r < 32 && 0 <= col < 32 && #[trigger] pending_covers(top[top_base + c0], y, c0, r, col)
            implies !covered_by(fs1, dir, t, plane_origin(dir, col, r).0, plane_origin(dir, col, r).1) by {
        let (x, yy) = plane_origin(dir, col, r);
        lemma_plane_pos_flat(dir, col, r);
        if covered_by(fs1, dir, t, x, yy) {
            lemma_covered_split(fs, f, dir, t, x, yy);
            if covers(f, t, x, yy) {
                assert(top[top_base + i] != 0);
                assert(i + cell_width(top[top_base + i]) <= c0);
            }
        }
    }
    assert forall|c0: int, r: int, col: int|
        0 <= c0 < 32 && 0 <= c0 < 32 && 0 <= r < 32 && 0 <= col < 32 && #[trigger] pending_covers(l[base + c0], y + 1, c0, r, col)
            implies !covered_by(fs1, dir, t, plane_origin(dir, col, r).0, plane_origin(dir, col, r).1) by {
        let (x, yy) = plane_origin(dir, col, r);
        lemma_plane_pos_flat(dir, col, r);
        if covered_by(fs1, dir, t, x, yy) {
            lemma_covered_split(fs, f, dir, t, x, yy);
            if covers(f, t, x, yy) {
                assert(r < y);
                if c0 < i {
                    assert(pending_covers(top[top_base + c0], y, c0, r, col));
                    assert(top[top_base + i] != 0);
                    assert(c0 + cell_width(top[top_base + c0]) <= i);
                } else {
                    assert(l[base + c0] == merged[base + c0]);
                    assert(cell_height(merged[base + c0]) <= 1);
                }
            }
        }
    }
    assert forall|c0: int, r: int, col: int|
        0 <= c0 < i + 1 && r < y && #[trigger] pending_covers(l[base + c0], y + 1, c0, r, col) implies pending_covers(
            top[top_base + c0],
            y,
            c0,
            r,
            col,
        ) by {
        if c0 == i {
            assert(l[base + c0] == merged[base + c0]);
            assert(cell_height(merged[base + c0]) <= 1);
        }
    }
}

pub(crate) proof fn lemma_flat_flush_apart(fs: Seq<Face>, l: Seq<u32>, base: int, dir: u32, t: int, i: int, f: Face)
    requires
        0 <= t < 32,
        flat_free(fs, l, base, dir, t, 32, i, 32),
        row_apart(l, base),
        faces_disjoint(fs),
        0 <= i < 32,
        dir == 0 || dir == 5,
        f.dir == dir,
        l[base + i] != 0,
        forall|tt: int, x: int, yy: int|
            0 <= tt < 32 && 0 <= x < 32 && 0 <= yy < 32 && #[trigger] covers(f, tt, x, yy) ==> {
                &&& tt == t
                &&& pending_covers(l[base + i], 32, i, plane_pos(dir, x, yy).1, plane_pos(dir, x, yy).0)
                &&& 0 <= plane_pos(dir, x, yy).0 < 32
                &&& 0 <= plane_pos(dir, x, yy).1 < 32
                &&& plane_origin(dir, plane_pos(dir, x, yy).0, plane_pos(dir, x, yy).1) == (x, yy)
            },
    ensures
        flat_free(fs.push(f), l, base, dir, t, 32, i + 1, 32),
        faces_disjoint(fs.push(f)),
{
    let fs1 = fs.push(f);
    assert(fresh(fs, f)) by {
        assert forall|tt: int, x: int, yy: int|
            0 <= tt < 32 && 0 <= x < 32 && 0 <= yy < 32 && #[trigger] covers(f, tt, x, yy) implies !covered_by(fs, f.dir, tt, x, yy) by {
            let (col, r) = plane_pos(dir, x, yy);
            assert(pending_covers(l[base + i], 32, i, r, col));
        }
    }
    lemma_disjoint_push(fs, f);
    assert forall|c0: int, r: int, col: int|
        0 <= c0 < 32 && i + 1 <= c0 < 32 && 0 <= r < 32 && 0 <= col < 32 && #[trigger] pending_covers(l[base + c0], 32, c0, r, col)
            implies !covered_by(fs1, dir, t, plane_origin(dir, col, r).0, plane_origin(dir, col, r).1) by {
        let (x, yy) = plane_origin(dir, col, r);
        lemma_plane_pos_flat(dir, col, r);
        if covered_by(fs1, dir, t, x, yy) {
            lemma_covered_split(fs, f, dir, t, x, yy);
            if covers(f, t, x, yy) {
                assert(i + cell_width(l[base + i]) <= c0);
            }
        }
    }
}

pub(crate) proof fn lemma_side_apart_lframe(fs: Seq<Face>, l1: Seq<u32>, l2: Seq<u32>, base: int, dir: u32, s: int)
    requires
        side_free(fs, l1, base, dir, s, 0, 1024),
        rows_apart(l1, base),
        forall|j: int| 0 <= j < 1024 ==> #[trigger] l2[base + j] == l1[base + j],
    ensures
        side_free(fs, l2, base, dir, s, 0, 1024),
        rows_apart(l2, base),
{
    assert forall|row: int, c0: int, t: int, col: int|
        0 <= row < 32 && 0 <= c0 < 32 && 0 <= row * 32 + c0 < 1024 && 0 <= t < 32 && 0 <= col < 32
            && #[trigger] pending_covers(l2[base + row * 32 + c0], s, c0, t, col) implies !covered_by(
            fs,
            dir,
            t,
            side_origin(dir, col, row).0,
            side_origin(dir, col, row).1,
        ) by {
        assert(l2[base + (row * 32 + c0)] == l1[base + (row * 32 + c0)]);
    }
    assert forall|row: int, c0: int, c1: int|
        0 <= row < 32 && 0 <= c0 < c1 < 32 && #[trigger] l2[base + row * 32 + c0] != 0 && #[trigger] l2[base + row * 32
            + c1] != 0 implies c0 + cell_width(l2[base + row * 32 + c0]) <= c1 by {
        assert(l2[base + (row * 32 + c0)] == l1[base + (row * 32 + c0)]);
        assert(l2[base + (row * 32 + c1)] == l1[base + (row * 32 + c1)]);
    }
}

pub(crate) proof fn lemma_flat_below_frame(a: Seq<Face>, b: Seq<Face>, d: u32, dir: u32, t: int, y: int)
    requires
        flat_below(a, dir, t, y),
        prefix_of(a, b),
        added_dir(a, b, d),
        d != dir,
    ensures
        flat_below(b, dir, t, y),
{
    assert forall|k: int, tt: int, x: int, yy: int|
        0 <= k < b.len() && b[k].dir == dir && 0 <= tt < 32 && 0 <= x < 32 && 0 <= yy < 32 && #[trigger] covers(b[k], tt, x, yy)
            implies tt < t || (tt == t && plane_pos(dir, x, yy).1 < y) by {
        assert(k < a.len());
        assert(b[k] == a[k]);
    }
}

/// All side facts of the plane at `base` for direction `dir` after `s` slabs.
pub open spec fn side_apart(fs: Seq<Face>, l: Seq<u32>, base: int, dir: u32, s: int) -> bool {
    &&& side_free(fs, l, base, dir, s, 0, 1024)
    &&& side_below(fs, dir, s)
    &&& rows_apart(l, base)
}

pub(crate) proof fn lemma_side_apart_frame(a: Seq<Face>, b: Seq<Face>, d: u32, l1: Seq<u32>, l2: Seq<u32>, base: int, dir: u32, s: int)
    requires
        side_apart(a, l1, base, dir, s),
        prefix_of(a, b),
        added_dir(a, b, d),
        d != dir,
        forall|j: int| 0 <= j < 1024 ==> #[trigger] l2[base + j] == l1[base + j],
    ensures
        side_apart(b, l2, base, dir, s),
{
    lemma_side_free_frame(a, b, d, l1, base, dir, s, 0, 1024);
    lemma_side_below_frame(a, b, d, dir, s);
    lemma_side_apart_lframe(b, l1, l2, base, dir, s);
}

/// After row `y` of a flat plane is copied and merged, its cells and those of
/// the pending row above satisfy the merge invariants.
pub(crate) proof fn lemma_flat_row_start(
    c: Seq<u32>,
    fs: Seq<Face>,
    head: Seq<u32>,
    merged: Seq<u32>,
    row_vals: Seq<u32>,
    current_row_idx: int,
    top_row_idx: int,
    dir: u32,
    t: int,
    y: int,
)
    requires
        head.len() == 64,
        merged.len() == 64,
        current_row_idx == 0 || current_row_idx == 32,
        top_row_idx == 32 - current_row_idx,
        dir == 0 || dir == 5,
        0 <= t < 32,
        0 <= y < 32,
        row_vals.len() == 32,
        forall|j: int| 0 <= j < 32 ==> #[trigger] row_vals[j] == plane_value(c, dir, t, y, j),
        forall|k: int| 0 <= k < 32 ==> #[trigger] merged[top_row_idx + k] == head[top_row_idx + k],
        forall|k: int| 0 <= k < 32 ==> #[trigger] merged[current_row_idx + k] == merged_cell(row_vals, k),
        forall|k: int| 0 <= k < 32 ==> pending_ok(#[trigger] merged[current_row_idx + k], k, 1),
        flat_done(c, fs, head, top_row_idx, dir, t, y),
        flat_free(fs, head, top_row_idx, dir, t, y, 0, 32),
        flat_below(fs, dir, t, y),
        row_apart(head, top_row_idx),
        faces_disjoint(fs),
    ensures
        forall|k: int| 0 <= k < 32 ==> flat_cell_sound(c, dir, t, y + 1, k, #[trigger] merged[current_row_idx + k]),
        flat_progress(c, fs, merged, merged, current_row_idx, top_row_idx, dir, t, y, 0),
        flat_merge_apart(fs, merged, merged, merged, current_row_idx, top_row_idx, dir, t, y, 0),
{
        assert forall|k: int| 0 <= k < 32 implies flat_cell_sound(c, dir, t, y + 1, k, #[trigger] merged[current_row_idx + k]) by {
            lemma_merged_flat_sound(c, dir, t, y, row_vals, k);
        }
            assert forall|r: int, col: int|
                0 <= r <= y && 0 <= col < 32 && #[trigger] plane_value(c, dir, t, r, col) != 0 implies {
                    ||| covered_by(fs, dir, t, plane_origin(dir, col, r).0, plane_origin(dir, col, r).1)
                    ||| exists|c0: int| 0 <= c0 < 32 && c0 >= 0 && #[trigger] pending_covers(merged[top_row_idx + c0], y, c0, r, col)
                    ||| exists|c0: int| 0 <= c0 < 32 && #[trigger] pending_covers(merged[current_row_idx + c0], y + 1, c0, r, col)
                } by {
                if r == y {
                    assert(row_vals[col] == plane_value(c, dir, t, y, col));
                    lemma_run_head(row_vals, col);
                    let j = run_head(row_vals, col);
                    lemma_run_len_bound(row_vals, j);
                    assert(row_vals[j] == plane_value(c, dir, t, y, j));
                    lemma_plane_value_bound(c, dir, t, y, j);
                    lemma_start_fields(row_vals[j] as int, run_len(row_vals, j));
                    assert(merged[current_row_idx + j] == merged_cell(row_vals, j));
                    assert(pending_covers(merged[current_row_idx + j], y + 1, j, r, col));
                } else if !covered_by(fs, dir, t, plane_origin(dir, col, r).0, plane_origin(dir, col, r).1) {
                    let c0 = choose|c0: int| 0 <= c0 < 32 && #[trigger] pending_covers(head[top_row_idx + c0], y, c0, r, col);
                    assert(pending_covers(merged[top_row_idx + c0], y, c0, r, col));
                }
            }
            assert(flat_progress(c, fs, merged, merged, current_row_idx, top_row_idx, dir, t, y, 0));
            let fs0 = fs;
            assert forall|c0: int, r: int, col: int|
                0 <= c0 < 32 && 0 <= c0 < 32 && 0 <= r < 32 && 0 <= col < 32 && #[trigger] pending_covers(merged[top_row_idx + c0], y, c0, r, col)
                    implies !covered_by(fs0, dir, t, plane_origin(dir, col, r).0, plane_origin(dir, col, r).1) by {
                assert(pending_covers(head[top_row_idx + c0], y, c0, r, col));
            }
            assert forall|c0: int, c1: int|
                0 <= c0 < c1 < 32 && #[trigger] merged[top_row_idx + c0] != 0 && #[trigger] merged[top_row_idx + c1] != 0 implies c0
                    + cell_width(merged[top_row_idx + c0]) <= c1 by {
                assert(head[top_row_idx + c0] != 0 && head[top_row_idx + c1] != 0);
            }
            assert forall|c0: int, r: int, col: int|
                0 <= c0 < 32 && 0 <= c0 < 32 && 0 <= r < 32 && 0 <= col < 32 && #[trigger] pending_covers(merged[current_row_idx + c0], y + 1, c0, r, col)
                    implies !covered_by(fs0, dir, t, plane_origin(dir, col, r).0, plane_origin(dir, col, r).1) by {
                assert(pending_ok(merged[current_row_idx + c0], c0, 1));
                lemma_plane_pos_flat(dir, col, r);
                if covered_by(fs0, dir, t, plane_origin(dir, col, r).0, plane_origin(dir, col, r).1) {
                    let k = choose|k: int|
                        0 <= k < fs0.len() && fs0[k].dir == dir && #[trigger] covers(
                            fs0[k],
                            t,
                            plane_origin(dir, col, r).0,
                            plane_origin(dir, col, r).1,
                        );
                }
            }
            assert forall|c0: int, c1: int|
                0 <= c0 < c1 < 32 && #[trigger] merged[current_row_idx + c0] != 0 && #[trigger] merged[current_row_idx + c1] != 0 implies c0
                    + cell_width(merged[current_row_idx + c0]) <= c1 by {
                assert(merged[current_row_idx + c0] == merged_cell(row_vals, c0));
                assert(merged[current_row_idx + c1] == merged_cell(row_vals, c1));
                lemma_runs_apart(row_vals, c0, c1);
                lemma_run_len_bound(row_vals, c0);
                lemma_plane_value_bound(c, dir, t, y, c0);
                lemma_start_fields(row_vals[c0] as int, run_len(row_vals, c0));
            }
            assert forall|k: int| 0 <= k < 32 implies cell_height(#[trigger] merged[current_row_idx + k]) <= 1 by {
                assert(pending_ok(merged[current_row_idx + k], k, 1));
            }
            assert(flat_merge_apart(fs0, merged, merged, merged, current_row_idx, top_row_idx, dir, t, y, 0));
}

/// A pending cell of a side plane after slabs `0 .. s`: zero, or a non-zero
/// payload that every cell of its rectangle held.
pub open spec fn side_cell_sound(c: Seq<u32>, dir: u32, s: int, row: int, col: int, v: u32) -> bool {
    v != 0 ==> {
        &&& cell_payload(v) != 0
        &&& side_rect_holds(c, dir, row, col, cell_width(v), s - cell_height(v), cell_height(v), cell_payload(v))
    }
}

/// A pending cell of a flat plane of slab `t` after rows `0 .. y`.
pub open spec fn flat_cell_sound(c: Seq<u32>, dir: u32, t: int, y: int, col: int, v: u32) -> bool {
    v != 0 ==> {
        &&& cell_payload(v) != 0
        &&& flat_rect_holds(c, dir, t, y - cell_height(v), col, cell_width(v), cell_height(v), cell_payload(v))
    }
}

/// A merged row of side-plane payloads of slab `s` holds sound one-slab rectangles.
pub(crate) proof fn lemma_merged_side_sound(c: Seq<u32>, dir: u32, s: int, row: int, rs: Seq<u32>, col: int)
    requires
        rs.len() == 32,
        0 <= col < 32,
        forall|j: int| 0 <= j < 32 ==> #[trigger] rs[j] == plane_value(c, dir, s, row, j),
    ensures
        side_cell_sound(c, dir, s + 1, row, col, merged_cell(rs, col)),
{
    if run_start(rs, col) {
        lemma_run_len_bound(rs, col);
        lemma_plane_value_bound(c, dir, s, row, col);
        lemma_start_fields(rs[col] as int, run_len(rs, col));
        assert forall|t: int, k: int| s <= t < s + 1 && col <= k < col + run_len(rs, col) implies #[trigger] plane_value(c, dir, t, row, k) == rs[col] by {
            lemma_run_cells(rs, col, k);
        }
    }
}

/// A merged row of flat-plane payloads of row `y` holds sound one-row rectangles.
pub(crate) proof fn lemma_merged_flat_sound(c: Seq<u32>, dir: u32, t: int, y: int, rs: Seq<u32>, col: int)
    requires
        rs.len() == 32,
        0 <= col < 32,
        forall|j: int| 0 <= j < 32 ==> #[trigger] rs[j] == plane_value(c, dir, t, y, j),
    ensures
        flat_cell_sound(c, dir, t, y + 1, col, merged_cell(rs, col)),
{
    if run_start(rs, col) {
        lemma_run_len_bound(rs, col);
        lemma_plane_value_bound(c, dir, t, y, col);
        lemma_start_fields(rs[col] as int, run_len(rs, col));
        assert forall|r: int, k: int| y <= r < y + 1 && col <= k < col + run_len(rs, col) implies #[trigger] plane_value(c, dir, t, r, k) == rs[col] by {
            lemma_run_cells(rs, col, k);
        }
    }
}

/// After every column of row `y` is stacked, the new pending row covers what
/// the emitted faces do not, and its rectangles do not overlap.
pub(crate) proof fn lemma_flat_row_end(
    c: Seq<u32>,
    fs: Seq<Face>,
    l: Seq<u32>,
    merged: Seq<u32>,
    base: int,
    top_base: int,
    dir: u32,
    t: int,
    y: int,
)
    requires
        flat_progress(c, fs, l, merged, base, top_base, dir, t, y, 32),
        flat_merge_apart(fs, l, merged, merged, base, top_base, dir, t, y, 32),
    ensures
        flat_done(c, fs, l, base, dir, t, y + 1),
        row_apart(l, base),
{
    lemma_flat_progress_done(c, fs, l, merged, base, top_base, dir, t, y);
    assert forall|c0: int, c1: int|
        0 <= c0 < c1 < 32 && #[trigger] l[base + c0] != 0 && #[trigger] l[base + c1] != 0 implies c0 + cell_width(l[base + c0]) <= c1 by {
        assert(cell_width(l[base + c0]) == cell_width(merged[base + c0]));
        assert(l[base + c1] != 0 <==> merged[base + c1] != 0);
        assert(l[base + c0] != 0 <==> merged[base + c0] != 0);
    }
}

} // verus!
