//! The greedy pass's output as a function of the chunk: slab by slab, the
//! side planes stack each row-merged slab onto the pending one, the `UP` and
//! `DOWN` planes stack row-merged rows, and every pending rectangle that is
//! not continued is emitted, in the order the pass walks the planes.
use vstd::prelude::*;
use crate::encoder::Face;
use crate::layers::{merged_cell, plane_value, side_origin};

verus! {

/// The collected payloads of row `row` of the plane of `dir` in slab `t`.
pub open spec fn slab_row(c: Seq<u32>, dir: u32, t: int, row: int) -> Seq<u32> {
    Seq::new(32, |k: int| plane_value(c, dir, t, row, k))
}

/// The side plane of `dir` in slab `t` with each row merged into maximal runs.
pub open spec fn merged_side(c: Seq<u32>, dir: u32, t: int) -> Seq<u32> {
    Seq::new(1024, |i: int| merged_cell(slab_row(c, dir, t, i / 32), i % 32))
}

/// A pending cell continues into the cell below it: same payload and width.
pub open spec fn joins(top: u32, cur: u32) -> bool {
    top != 0 && (top & 0x1FF_FFFF) == (cur & 0x1FF_FFFF)
}

/// A pending side cell continues when it matches and is not yet `S` high.
pub open spec fn stacks(top: u32, cur: u32) -> bool {
    joins(top, cur) && (top >> 25) < 32
}

/// The cell below, taking over the pending cell's height plus one.
pub open spec fn grown(cur: u32, top: u32) -> u32 {
    (cur & 0x1FF_FFFF) | ((((top >> 25) + 1) as u32) << 25)
}

/// The pending side plane of `dir` after slabs `0 .. s`.
pub open spec fn side_pending(c: Seq<u32>, dir: u32, s: nat) -> Seq<u32>
    decreases s,
{
    if s == 0 {
        Seq::new(1024, |i: int| 0u32)
    } else {
        let top = side_pending(c, dir, (s - 1) as nat);
        let cur = merged_side(c, dir, s - 1);
        Seq::new(1024, |i: int| if stacks(top[i], cur[i]) { grown(cur[i], top[i]) } else { cur[i] })
    }
}

/// The rectangle of the pending side cell `v` at index `i`, with `s` slabs done.
pub open spec fn side_rect(dir: u32, s: int, i: int, v: u32) -> Face {
    Face {
        dir,
        h: (s - (v >> 25)) as u32,
        x: side_origin(dir, i % 32, i / 32).0 as u32,
        y: side_origin(dir, i % 32, i / 32).1 as u32,
        width: (v >> 17) & 0xFF,
        height: v >> 25,
        data: v & 0x1FFFF,
    }
}

/// The rectangles that stacking slab `s` onto the pending plane `top` emits
/// from the first `n` cells, in cell order.
pub open spec fn side_emits(top: Seq<u32>, cur: Seq<u32>, dir: u32, s: int, n: nat) -> Seq<Face>
    decreases n,
{
    if n == 0 {
        Seq::empty()
    } else {
        let i = n - 1;
        side_emits(top, cur, dir, s, (n - 1) as nat) + if top[i] != 0 && !stacks(top[i], cur[i]) {
            seq![side_rect(dir, s, i, top[i])]
        } else {
            Seq::empty()
        }
    }
}

/// The rectangles still pending in the first `n` cells of a side plane after the last slab.
pub open spec fn side_flush(pend: Seq<u32>, dir: u32, n: nat) -> Seq<Face>
    decreases n,
{
    if n == 0 {
        Seq::empty()
    } else {
        let i = n - 1;
        side_flush(pend, dir, (n - 1) as nat) + if pend[i] != 0 {
            seq![side_rect(dir, 32, i, pend[i])]
        } else {
            Seq::empty()
        }
    }
}

/// Row `y` of the flat plane of `dir` in slab `t`, merged into maximal runs.
pub open spec fn flat_merged_row(c: Seq<u32>, dir: u32, t: int, y: int) -> Seq<u32> {
    Seq::new(32, |k: int| merged_cell(slab_row(c, dir, t, y), k))
}

/// The pending row of the flat plane of `dir` in slab `t` after rows `0 .. y`.
pub open spec fn flat_pending(c: Seq<u32>, dir: u32, t: int, y: nat) -> Seq<u32>
    decreases y,
{
    if y == 0 {
        Seq::new(32, |k: int| 0u32)
    } else {
        let top = flat_pending(c, dir, t, (y - 1) as nat);
        let cur = flat_merged_row(c, dir, t, y - 1);
        Seq::new(32, |k: int| if joins(top[k], cur[k]) { grown(cur[k], top[k]) } else { cur[k] })
    }
}

/// The rectangle of the pending flat cell `v` in column `i`, with rows `0 .. y` done.
pub open spec fn flat_rect(dir: u32, t: int, y: int, i: int, v: u32) -> Face {
    Face {
        dir,
        h: t as u32,
        x: i as u32,
        y: (if dir == 0 { y - (v >> 25) } else { 31 - (y - (v >> 25)) }) as u32,
        width: (v >> 17) & 0xFF,
        height: v >> 25,
        data: v & 0x1FFFF,
    }
}

/// The rectangles that stacking row `y` onto the pending row `top` emits from
/// the first `n` columns.
pub open spec fn flat_emits(top: Seq<u32>, cur: Seq<u32>, dir: u32, t: int, y: int, n: nat) -> Seq<Face>
    decreases n,
{
    if n == 0 {
        Seq::empty()
    } else {
        let i = n - 1;
        flat_emits(top, cur, dir, t, y, (n - 1) as nat) + if top[i] != 0 && !joins(top[i], cur[i]) {
            seq![flat_rect(dir, t, y, i, top[i])]
        } else {
            Seq::empty()
        }
    }
}

/// The rectangles still pending in the first `n` columns after the last row.
pub open spec fn flat_flush(pend: Seq<u32>, dir: u32, t: int, n: nat) -> Seq<Face>
    decreases n,
{
    if n == 0 {
        Seq::empty()
    } else {
        let i = n - 1;
        flat_flush(pend, dir, t, (n - 1) as nat) + if pend[i] != 0 {
            seq![flat_rect(dir, t, 32, i, pend[i])]
        } else {
            Seq::empty()
        }
    }
}

/// The rectangles of the flat plane of `dir` in slab `t` emitted while rows `0 .. y` merge.
pub open spec fn flat_rows_faces(c: Seq<u32>, dir: u32, t: int, y: nat) -> Seq<Face>
    decreases y,
{
    if y == 0 {
        Seq::empty()
    } else {
        flat_rows_faces(c, dir, t, (y - 1) as nat) + flat_emits(
            flat_pending(c, dir, t, (y - 1) as nat),
            flat_merged_row(c, dir, t, y - 1),
            dir,
            t,
            y - 1,
            32,
        )
    }
}

/// All rectangles of the flat plane of `dir` in slab `t`.
pub open spec fn flat_faces(c: Seq<u32>, dir: u32, t: int) -> Seq<Face> {
    flat_rows_faces(c, dir, t, 32) + flat_flush(flat_pending(c, dir, t, 32), dir, t, 32)
}

/// The side rectangles that slab `s` emits for directions `1 .. d`.
pub open spec fn slab_side_faces(c: Seq<u32>, s: nat, d: u32) -> Seq<Face>
    decreases d,
{
    if d <= 1 {
        Seq::empty()
    } else {
        let e = (d - 1) as u32;
        slab_side_faces(c, s, e) + side_emits(side_pending(c, e, s), merged_side(c, e, s as int), e, s as int, 1024)
    }
}

/// All rectangles that slab `s` emits: the four side planes, then `UP`, then `DOWN`.
pub open spec fn slab_faces(c: Seq<u32>, s: nat) -> Seq<Face> {
    slab_side_faces(c, s, 5) + flat_faces(c, 0, s as int) + flat_faces(c, 5, s as int)
}

/// The rectangles emitted while slabs `0 .. n` are processed.
pub open spec fn greedy_upto(c: Seq<u32>, n: nat) -> Seq<Face>
    decreases n,
{
    if n == 0 {
        Seq::empty()
    } else {
        greedy_upto(c, (n - 1) as nat) + slab_faces(c, (n - 1) as nat)
    }
}

/// The side rectangles still pending after the last slab, for directions `1 .. d`.
pub open spec fn final_side_faces(c: Seq<u32>, d: u32) -> Seq<Face>
    decreases d,
{
    if d <= 1 {
        Seq::empty()
    } else {
        let e = (d - 1) as u32;
        final_side_faces(c, e) + side_flush(side_pending(c, e, 32), e, 1024)
    }
}

/// Every rectangle of the greedy pass, in the order it is emitted.
pub open spec fn greedy_faces(c: Seq<u32>) -> Seq<Face> {
    greedy_upto(c, 32) + final_side_faces(c, 5)
}

} // verus!
