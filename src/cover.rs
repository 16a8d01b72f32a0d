//! Covering the cells of one element with maximal rectangles, and the
//! laws of that cover.

use crate::geometry::BoundingBox;
use crate::maps::{MapElement, WorldMap};
use crate::text::grid_view;
use vstd::prelude::*;

verus! {


/// A non-empty grid whose rows all have the length of the first.
pub open spec fn grid_wf(g: Seq<Seq<MapElement>>) -> bool {
    &&& g.len() > 0
    &&& g[0].len() > 0
    &&& g.len() <= usize::MAX
    &&& g[0].len() <= usize::MAX
    &&& forall|i: int| 0 <= i < g.len() ==> (#[trigger] g[i]).len() == g[0].len()
}

/// A well-formed box that lies inside a grid of `rows` by `cols` cells.
pub open spec fn within(bb: BoundingBox, rows: int, cols: int) -> bool {
    bb.bottom <= bb.top <= rows && bb.left <= bb.right <= cols
}

/// Whether cells `c0..c1` of row `row` all hold `el`.
pub open spec fn row_run(g: Seq<Seq<MapElement>>, el: MapElement, row: int, c0: int, c1: int) -> bool {
    forall|c: int| c0 <= c < c1 ==> #[trigger] g[row][c] == el
}

/// Whether rows `r0..r1` of column `col` all hold `el`.
pub open spec fn col_run(g: Seq<Seq<MapElement>>, el: MapElement, col: int, r0: int, r1: int) -> bool {
    forall|r: int| r0 <= r < r1 ==> #[trigger] g[r][col] == el
}

/// How far a box can still grow inside the grid.
pub open spec fn grow_room(g: Seq<Seq<MapElement>>, bb: BoundingBox) -> int {
    bb.bottom + bb.left + (if g.len() >= bb.top { g.len() - bb.top } else { 0 }) + (if g[0].len()
        >= bb.right {
        g[0].len() - bb.right
    } else {
        0
    })
}

/// The box reached from `bb` by extending it one row or column at a time,
/// trying the bottom, left, top and right edges in that order, while every
/// cell of the new edge holds `el`.
pub open spec fn grow(g: Seq<Seq<MapElement>>, el: MapElement, bb: BoundingBox) -> BoundingBox
    decreases grow_room(g, bb),
{
    if !grid_wf(g) {
        bb
    } else if bb.bottom > 0 && row_run(g, el, bb.bottom - 1, bb.left as int, bb.right as int) {
        grow(g, el, BoundingBox { bottom: (bb.bottom - 1) as usize, ..bb })
    } else if bb.left > 0 && col_run(g, el, bb.left - 1, bb.bottom as int, bb.top as int) {
        grow(g, el, BoundingBox { left: (bb.left - 1) as usize, ..bb })
    } else if bb.top < g.len() && row_run(g, el, bb.top as int, bb.left as int, bb.right as int) {
        grow(g, el, BoundingBox { top: (bb.top + 1) as usize, ..bb })
    } else if bb.right < g[0].len() && col_run(g, el, bb.right as int, bb.bottom as int, bb.top as int) {
        grow(g, el, BoundingBox { right: (bb.right + 1) as usize, ..bb })
    } else {
        bb
    }
}

/// The box of the single cell `(row, col)`.
pub open spec fn unit_box(row: int, col: int) -> BoundingBox {
    BoundingBox { bottom: row as usize, left: col as usize, top: (row + 1) as usize, right: (col + 1) as usize }
}

/// Whether one of `boxes` holds the cell `(row, col)`.
pub open spec fn covered_by(boxes: Seq<BoundingBox>, row: int, col: int) -> bool {
    exists|i: int| 0 <= i < boxes.len() && (#[trigger] boxes[i]).contains(row, col)
}

/// The boxes found after visiting, row by row from the bottom and column by
/// column from the left, every cell before `(row, col)`: each cell that holds
/// `el` and lies in no box found so far starts a new box, grown as far as it
/// goes.
pub open spec fn cover_at(g: Seq<Seq<MapElement>>, el: MapElement, row: int, col: int) -> Seq<BoundingBox>
    decreases row, col,
{
    if row <= 0 && col <= 0 {
        Seq::empty()
    } else if col <= 0 {
        cover_at(g, el, row - 1, g[0].len() as int)
    } else {
        let prev = cover_at(g, el, row, col - 1);
        if g[row][col - 1] == el && !covered_by(prev, row, col - 1) {
            prev.push(grow(g, el, unit_box(row, col - 1)))
        } else {
            prev
        }
    }
}

/// Lexicographic order on `(bottom, left, top, right)`.
pub open spec fn box_le(a: BoundingBox, b: BoundingBox) -> bool {
    if a.bottom != b.bottom {
        a.bottom < b.bottom
    } else if a.left != b.left {
        a.left < b.left
    } else if a.top != b.top {
        a.top < b.top
    } else {
        a.right <= b.right
    }
}

/// `s` with `x` placed before its first element that is not below `x`.
pub open spec fn insert_sorted(s: Seq<BoundingBox>, x: BoundingBox) -> Seq<BoundingBox>
    decreases s.len(),
{
    if s.len() == 0 {
        seq![x]
    } else if box_le(x, s[0]) {
        seq![x] + s
    } else {
        seq![s[0]] + insert_sorted(s.drop_first(), x)
    }
}

/// `s` in lexicographic order.
pub open spec fn sort_boxes(s: Seq<BoundingBox>) -> Seq<BoundingBox>
    decreases s.len(),
{
    if s.len() == 0 {
        s
    } else {
        insert_sorted(sort_boxes(s.drop_last()), s.last())
    }
}

/// The maximal rectangles that cover the cells of `el`, in lexicographic
/// order.
pub open spec fn boxes_of(g: Seq<Seq<MapElement>>, el: MapElement) -> Seq<BoundingBox> {
    sort_boxes(cover_at(g, el, g.len() as int, 0))
}

fn row_all(g: &Vec<Vec<MapElement>>, el: MapElement, row: usize, c0: usize, c1: usize) -> (r: bool)
    requires
        grid_wf(grid_view(g@)),
        row < g@.len(),
        c1 <= g@[0]@.len(),
    ensures
        r == row_run(grid_view(g@), el, row as int, c0 as int, c1 as int),
{
    let ghost gv = grid_view(g@);
    assert(gv[row as int] == g@[row as int]@);
    let mut c = c0;
    while c < c1
        invariant
            gv == grid_view(g@),
            grid_wf(gv),
            row < gv.len(),
            gv[row as int] == g@[row as int]@,
            c1 <= gv[0].len(),
            c0 <= c,
            forall|j: int| c0 <= j < c ==> #[trigger] gv[row as int][j] == el,
        decreases c1 - c,
    {
        if g[row][c] != el {
            assert(gv[row as int][c as int] != el);
            return false;
        }
        c += 1;
    }
    true
}

fn col_all(g: &Vec<Vec<MapElement>>, el: MapElement, col: usize, r0: usize, r1: usize) -> (r: bool)
    requires
        grid_wf(grid_view(g@)),
        col < g@[0]@.len(),
        r1 <= g@.len(),
    ensures
        r == col_run(grid_view(g@), el, col as int, r0 as int, r1 as int),
{
    let ghost gv = grid_view(g@);
    let mut r = r0;
    while r < r1
        invariant
            gv == grid_view(g@),
            grid_wf(gv),
            col < gv[0].len(),
            r1 <= gv.len(),
            r0 <= r,
            forall|j: int| r0 <= j < r ==> #[trigger] gv[j][col as int] == el,
        decreases r1 - r,
    {
        assert(gv[r as int] == g@[r as int]@);
        if g[r][col] != el {
            assert(gv[r as int][col as int] != el);
            return false;
        }
        r += 1;
    }
    true
}

/// Grows `start` as `grow` does.
fn grow_box(g: &Vec<Vec<MapElement>>, el: MapElement, start: BoundingBox) -> (r: BoundingBox)
    requires
        grid_wf(grid_view(g@)),
        within(start, g@.len() as int, g@[0]@.len() as int),
        start.bottom < start.top,
        start.left < start.right,
    ensures
        r == grow(grid_view(g@), el, start),
        within(r, g@.len() as int, g@[0]@.len() as int),
        r.bottom < r.top,
        r.left < r.right,
{
    let ghost gv = grid_view(g@);
    let num_rows = g.len();
    let num_cols = g[0].len();
    assert(gv[0] == g@[0]@);
    let mut bb = start;
    loop
        invariant
            gv == grid_view(g@),
            grid_wf(gv),
            num_rows == gv.len(),
            num_cols == gv[0].len(),
            within(bb, num_rows as int, num_cols as int),
            bb.bottom < bb.top,
            bb.left < bb.right,
            grow(gv, el, bb) == grow(gv, el, start),
        ensures
            within(bb, num_rows as int, num_cols as int),
            bb.bottom < bb.top,
            bb.left < bb.right,
            grow(gv, el, bb) == grow(gv, el, start),
            grow(gv, el, bb) == bb,
        decreases grow_room(gv, bb),
    {
        if bb.bottom > 0 && row_all(g, el, bb.bottom - 1, bb.left, bb.right) {
            bb.bottom = bb.bottom - 1;
            continue;
        }
        if bb.left > 0 && col_all(g, el, bb.left - 1, bb.bottom, bb.top) {
            bb.left = bb.left - 1;
            continue;
        }
        if bb.top < num_rows && row_all(g, el, bb.top, bb.left, bb.right) {
            bb.top = bb.top + 1;
            continue;
        }
        if bb.right < num_cols && col_all(g, el, bb.right, bb.bottom, bb.top) {
            bb.right = bb.right + 1;
            continue;
        }
        break;
    }
    bb
}

fn box_le_exec(a: &BoundingBox, b: &BoundingBox) -> (r: bool)
    ensures
        r == box_le(*a, *b),
{
    if a.bottom != b.bottom {
        a.bottom < b.bottom
    } else if a.left != b.left {
        a.left < b.left
    } else if a.top != b.top {
        a.top < b.top
    } else {
        a.right <= b.right
    }
}

proof fn lemma_insert_sorted_at(s: Seq<BoundingBox>, x: BoundingBox, p: int)
    requires
        0 <= p <= s.len(),
        forall|j: int| 0 <= j < p ==> !box_le(x, #[trigger] s[j]),
        p == s.len() || box_le(x, s[p]),
    ensures
        insert_sorted(s, x) == s.insert(p, x),
    decreases p,
{
    if p == 0 {
        if s.len() == 0 {
            assert(s.insert(0, x) =~= seq![x]);
        } else {
            assert(s.insert(0, x) =~= seq![x] + s);
        }
    } else {
        assert(!box_le(x, s[0]));
        let t = s.drop_first();
        assert forall|j: int| 0 <= j < p - 1 implies !box_le(x, #[trigger] t[j]) by {
            assert(t[j] == s[j + 1]);
        }
        lemma_insert_sorted_at(t, x, p - 1);
        assert(seq![s[0]] + t.insert(p - 1, x) =~= s.insert(p, x));
    }
}

/// Whether one of `boxes` holds the cell `(row, col)`.
fn is_covered(boxes: &Vec<BoundingBox>, row: usize, col: usize) -> (r: bool)
    ensures
        r == covered_by(boxes@, row as int, col as int),
{
    let mut i: usize = 0;
    while i < boxes.len()
        invariant
            i <= boxes@.len(),
            forall|j: int| 0 <= j < i ==> !(#[trigger] boxes@[j]).contains(row as int, col as int),
        decreases boxes@.len() - i,
    {
        let b = &boxes[i];
        if b.bottom <= row && row < b.top && b.left <= col && col < b.right {
            return true;
        }
        i += 1;
    }
    false
}

impl WorldMap {
    /// The maximal rectangles that cover the cells holding `el`, in
    /// lexicographic order.
    pub fn get_bounding_boxes(g: &Vec<Vec<MapElement>>, el: MapElement) -> (r: Vec<BoundingBox>)
        requires
            grid_wf(grid_view(g@)),
        ensures
            r@ == boxes_of(grid_view(g@), el),
            forall|i: int|
                0 <= i < r@.len() ==> within(#[trigger] r@[i], g@.len() as int, g@[0]@.len() as int),
    {
        let ghost gv = grid_view(g@);
        let num_rows = g.len();
        let num_cols = g[0].len();
        assert(gv[0] == g@[0]@);
        let mut raw: Vec<BoundingBox> = Vec::new();
        let mut row: usize = 0;
        while row < num_rows
            invariant
                gv == grid_view(g@),
                grid_wf(gv),
                num_rows == gv.len(),
                num_cols == gv[0].len(),
                row <= num_rows,
                raw@ == cover_at(gv, el, row as int, 0),
                forall|i: int| 0 <= i < raw@.len() ==> within(#[trigger] raw@[i], num_rows as int, num_cols as int),
            decreases num_rows - row,
        {
            let mut col: usize = 0;
            while col < num_cols
                invariant
                    gv == grid_view(g@),
                    grid_wf(gv),
                    num_rows == gv.len(),
                    num_cols == gv[0].len(),
                    row < num_rows,
                    col <= num_cols,
                    raw@ == cover_at(gv, el, row as int, col as int),
                    forall|i: int| 0 <= i < raw@.len() ==> within(#[trigger] raw@[i], num_rows as int, num_cols as int),
                decreases num_cols - col,
            {
                assert(gv[row as int] == g@[row as int]@);
                if g[row][col] == el && !is_covered(&raw, row, col) {
                    let unit = BoundingBox { bottom: row, left: col, top: row + 1, right: col + 1 };
                    assert(unit == unit_box(row as int, col as int));
                    let b = grow_box(g, el, unit);
                    raw.push(b);
                }
                col += 1;
            }
            row += 1;
        }
        let mut out: Vec<BoundingBox> = Vec::new();
        let mut k: usize = 0;
        while k < raw.len()
            invariant
                k <= raw@.len(),
                out@ == sort_boxes(raw@.subrange(0, k as int)),
                forall|i: int| 0 <= i < raw@.len() ==> within(#[trigger] raw@[i], num_rows as int, num_cols as int),
                forall|i: int| 0 <= i < out@.len() ==> within(#[trigger] out@[i], num_rows as int, num_cols as int),
            decreases raw@.len() - k,
        {
            let x = raw[k];
            let mut p: usize = 0;
            while p < out.len() && !box_le_exec(&x, &out[p])
                invariant
                    p <= out@.len(),
                    forall|j: int| 0 <= j < p ==> !box_le(x, #[trigger] out@[j]),
                decreases out@.len() - p,
            {
                p += 1;
            }
            proof {
                lemma_insert_sorted_at(out@, x, p as int);
                let pre = raw@.subrange(0, k + 1);
                assert(pre.drop_last() =~= raw@.subrange(0, k as int));
            }
            out.insert(p, x);
            k += 1;
        }
        assert(raw@.subrange(0, raw@.len() as int) =~= raw@);
        out
    }
}

/// Whether `s` is in lexicographic order.
pub open spec fn boxes_sorted(s: Seq<BoundingBox>) -> bool {
    forall|i: int, j: int| 0 <= i < j < s.len() ==> box_le(#[trigger] s[i], #[trigger] s[j])
}

proof fn lemma_box_le_total(a: BoundingBox, b: BoundingBox)
    ensures
        box_le(a, b) || box_le(b, a),
        box_le(a, b) && box_le(b, a) ==> a == b,
{
}

proof fn lemma_box_le_trans(a: BoundingBox, b: BoundingBox, c: BoundingBox)
    requires
        box_le(a, b),
        box_le(b, c),
    ensures
        box_le(a, c),
{
}

proof fn lemma_insert_sorted_keeps_order(s: Seq<BoundingBox>, x: BoundingBox)
    requires
        boxes_sorted(s),
    ensures
        boxes_sorted(insert_sorted(s, x)),
        insert_sorted(s, x).len() == s.len() + 1,
        forall|y: BoundingBox| #[trigger] insert_sorted(s, x).contains(y) <==> (y == x || s.contains(y)),
    decreases s.len(),
{
    let r = insert_sorted(s, x);
    if s.len() == 0 {
        assert(r =~= seq![x]);
        assert forall|y: BoundingBox| #[trigger] r.contains(y) <==> (y == x || s.contains(y)) by {
            if r.contains(y) {
                let k = choose|k: int| 0 <= k < r.len() && r[k] == y;
                assert(k == 0);
            }
            if y == x {
                assert(r[0] == y);
            }
        }
    } else if box_le(x, s[0]) {
        assert(r =~= seq![x] + s);
        assert forall|i: int, j: int| 0 <= i < j < r.len() implies box_le(#[trigger] r[i], #[trigger] r[j]) by {
            if i == 0 {
                assert(r[j] == s[j - 1]);
                if j - 1 > 0 {
                    assert(box_le(s[0], s[j - 1]));
                    lemma_box_le_trans(x, s[0], s[j - 1]);
                }
            } else {
                assert(r[i] == s[i - 1] && r[j] == s[j - 1]);
            }
        }
        assert forall|y: BoundingBox| #[trigger] r.contains(y) <==> (y == x || s.contains(y)) by {
            if r.contains(y) {
                let k = choose|k: int| 0 <= k < r.len() && r[k] == y;
                if k > 0 {
                    assert(s[k - 1] == y);
                }
            }
            if y == x {
                assert(r[0] == y);
            }
            if s.contains(y) {
                let k = choose|k: int| 0 <= k < s.len() && s[k] == y;
                assert(r[k + 1] == y);
            }
        }
    } else {
        let t = s.drop_first();
        assert forall|i: int, j: int| 0 <= i < j < t.len() implies box_le(#[trigger] t[i], #[trigger] t[j]) by {
            assert(t[i] == s[i + 1] && t[j] == s[j + 1]);
        }
        lemma_insert_sorted_keeps_order(t, x);
        let rest = insert_sorted(t, x);
        assert(r =~= seq![s[0]] + rest);
        lemma_box_le_total(x, s[0]);
        assert forall|k: int| 0 <= k < rest.len() implies box_le(s[0], #[trigger] rest[k]) by {
            assert(rest.contains(rest[k]));
            if rest[k] != x {
                assert(t.contains(rest[k]));
                let m = choose|m: int| 0 <= m < t.len() && t[m] == rest[k];
                assert(s[m + 1] == rest[k]);
            }
        }
        assert forall|i: int, j: int| 0 <= i < j < r.len() implies box_le(#[trigger] r[i], #[trigger] r[j]) by {
            if i == 0 {
                assert(r[j] == rest[j - 1]);
            } else {
                assert(r[i] == rest[i - 1] && r[j] == rest[j - 1]);
            }
        }
        assert forall|y: BoundingBox| #[trigger] r.contains(y) <==> (y == x || s.contains(y)) by {
            if r.contains(y) {
                let k = choose|k: int| 0 <= k < r.len() && r[k] == y;
                if k > 0 {
                    assert(rest[k - 1] == y);
                    assert(rest.contains(y));
                    if y != x {
                        let m = choose|m: int| 0 <= m < t.len() && t[m] == y;
                        assert(s[m + 1] == y);
                    }
                } else {
                    assert(s[0] == y);
                }
            }
            if y == x {
                assert(rest.contains(y));
                let k = choose|k: int| 0 <= k < rest.len() && rest[k] == y;
                assert(r[k + 1] == y);
            }
            if s.contains(y) {
                let k = choose|k: int| 0 <= k < s.len() && s[k] == y;
                if k == 0 {
                    assert(r[0] == y);
                } else {
                    assert(t[k - 1] == y);
                    assert(rest.contains(y));
                    let m = choose|m: int| 0 <= m < rest.len() && rest[m] == y;
                    assert(r[m + 1] == y);
                }
            }
        }
    }
}

proof fn lemma_sort_boxes_sorted(s: Seq<BoundingBox>)
    ensures
        boxes_sorted(sort_boxes(s)),
        sort_boxes(s).len() == s.len(),
        forall|y: BoundingBox| #[trigger] sort_boxes(s).contains(y) <==> s.contains(y),
    decreases s.len(),
{
    if s.len() > 0 {
        let p = s.drop_last();
        lemma_sort_boxes_sorted(p);
        lemma_insert_sorted_keeps_order(sort_boxes(p), s.last());
        assert forall|y: BoundingBox| #[trigger] sort_boxes(s).contains(y) <==> s.contains(y) by {
            if s.contains(y) && y != s.last() {
                let k = choose|k: int| 0 <= k < s.len() && s[k] == y;
                assert(p[k] == y);
                assert(p.contains(y));
            }
            if p.contains(y) {
                let k = choose|k: int| 0 <= k < p.len() && p[k] == y;
                assert(s[k] == y);
            }
            if y == s.last() {
                assert(s[s.len() - 1] == y);
            }
        }
    }
}

/// The boxes of a map come out in lexicographic order of `(bottom, left,
/// top, right)`, as many as the cover found, and the same boxes.
pub proof fn lemma_boxes_sorted(g: Seq<Seq<MapElement>>, el: MapElement)
    ensures
        boxes_sorted(boxes_of(g, el)),
        boxes_of(g, el).len() == cover_at(g, el, g.len() as int, 0).len(),
        forall|y: BoundingBox| #[trigger] boxes_of(g, el).contains(y) <==> cover_at(g, el, g.len() as int, 0).contains(y),
{
    lemma_sort_boxes_sorted(cover_at(g, el, g.len() as int, 0));
}

/// Every cell of `bb` holds `el`.
pub open spec fn cells_are(g: Seq<Seq<MapElement>>, el: MapElement, bb: BoundingBox) -> bool {
    forall|r: int, c: int| bb.contains(r, c) ==> #[trigger] g[r][c] == el
}

/// No edge of `bb` can move out by one row or column onto cells that all
/// hold `el`.
pub open spec fn maximal(g: Seq<Seq<MapElement>>, el: MapElement, bb: BoundingBox) -> bool {
    &&& !(bb.bottom > 0 && row_run(g, el, bb.bottom - 1, bb.left as int, bb.right as int))
    &&& !(bb.left > 0 && col_run(g, el, bb.left - 1, bb.bottom as int, bb.top as int))
    &&& !(bb.top < g.len() && row_run(g, el, bb.top as int, bb.left as int, bb.right as int))
    &&& !(bb.right < g[0].len() && col_run(g, el, bb.right as int, bb.bottom as int, bb.top as int))
}

/// A non-empty box of the grid whose cells all hold `el` and that cannot
/// grow.
pub open spec fn good_box(g: Seq<Seq<MapElement>>, el: MapElement, bb: BoundingBox) -> bool {
    &&& within(bb, g.len() as int, g[0].len() as int)
    &&& bb.bottom < bb.top
    &&& bb.left < bb.right
    &&& cells_are(g, el, bb)
    &&& maximal(g, el, bb)
}

proof fn lemma_grow(g: Seq<Seq<MapElement>>, el: MapElement, bb: BoundingBox)
    requires
        grid_wf(g),
        within(bb, g.len() as int, g[0].len() as int),
        bb.bottom < bb.top,
        bb.left < bb.right,
        cells_are(g, el, bb),
    ensures
        good_box(g, el, grow(g, el, bb)),
        grow(g, el, bb).bottom <= bb.bottom,
        grow(g, el, bb).left <= bb.left,
        grow(g, el, bb).top >= bb.top,
        grow(g, el, bb).right >= bb.right,
    decreases grow_room(g, bb),
{
    if bb.bottom > 0 && row_run(g, el, bb.bottom - 1, bb.left as int, bb.right as int) {
        let nb = BoundingBox { bottom: (bb.bottom - 1) as usize, ..bb };
        assert forall|r: int, c: int| nb.contains(r, c) implies #[trigger] g[r][c] == el by {
            if r == bb.bottom - 1 {
                assert(g[r][c] == el);
            } else {
                assert(bb.contains(r, c));
            }
        }
        lemma_grow(g, el, nb);
    } else if bb.left > 0 && col_run(g, el, bb.left - 1, bb.bottom as int, bb.top as int) {
        let nb = BoundingBox { left: (bb.left - 1) as usize, ..bb };
        assert forall|r: int, c: int| nb.contains(r, c) implies #[trigger] g[r][c] == el by {
            if c == bb.left - 1 {
                assert(g[r][c] == el);
            } else {
                assert(bb.contains(r, c));
            }
        }
        lemma_grow(g, el, nb);
    } else if bb.top < g.len() && row_run(g, el, bb.top as int, bb.left as int, bb.right as int) {
        let nb = BoundingBox { top: (bb.top + 1) as usize, ..bb };
        assert forall|r: int, c: int| nb.contains(r, c) implies #[trigger] g[r][c] == el by {
            if r == bb.top {
                assert(g[r][c] == el);
            } else {
                assert(bb.contains(r, c));
            }
        }
        lemma_grow(g, el, nb);
    } else if bb.right < g[0].len() && col_run(g, el, bb.right as int, bb.bottom as int, bb.top as int) {
        let nb = BoundingBox { right: (bb.right + 1) as usize, ..bb };
        assert forall|r: int, c: int| nb.contains(r, c) implies #[trigger] g[r][c] == el by {
            if c == bb.right {
                assert(g[r][c] == el);
            } else {
                assert(bb.contains(r, c));
            }
        }
        lemma_grow(g, el, nb);
    }
}

/// Whether cell `(r1, c1)` comes before `(r2, c2)` row by row.
pub open spec fn visited_before(r1: int, c1: int, r2: int, c2: int) -> bool {
    r1 < r2 || (r1 == r2 && c1 < c2)
}

proof fn lemma_cover_at(g: Seq<Seq<MapElement>>, el: MapElement, row: int, col: int)
    requires
        grid_wf(g),
        0 <= row <= g.len(),
        0 <= col <= g[0].len(),
        col > 0 ==> row < g.len(),
    ensures
        forall|i: int| 0 <= i < cover_at(g, el, row, col).len() ==> good_box(g, el, #[trigger] cover_at(g, el, row, col)[i]),
        forall|r: int, c: int|
            0 <= r < g.len() && 0 <= c < g[0].len() && visited_before(r, c, row, col) && #[trigger] g[r][c] == el
                ==> covered_by(cover_at(g, el, row, col), r, c),
    decreases row, col,
{
    if row <= 0 && col <= 0 {
    } else if col <= 0 {
        lemma_cover_at(g, el, row - 1, g[0].len() as int);
        assert(cover_at(g, el, row, col) == cover_at(g, el, row - 1, g[0].len() as int));
    } else {
        lemma_cover_at(g, el, row, col - 1);
        let prev = cover_at(g, el, row, col - 1);
        if !(g[row][col - 1] == el && !covered_by(prev, row, col - 1)) {
            assert(cover_at(g, el, row, col) == prev);
        }
        if g[row][col - 1] == el && !covered_by(prev, row, col - 1) {
            let u = unit_box(row, col - 1);
            assert forall|r: int, c: int| u.contains(r, c) implies #[trigger] g[r][c] == el by {
                assert(r == row && c == col - 1);
            }
            lemma_grow(g, el, u);
            let b = grow(g, el, u);
            let next = prev.push(b);
            assert(next == cover_at(g, el, row, col));
            assert forall|i: int| 0 <= i < next.len() implies good_box(g, el, #[trigger] next[i]) by {
                if i < prev.len() {
                    assert(next[i] == prev[i]);
                }
            }
            assert forall|r: int, c: int|
                0 <= r < g.len() && 0 <= c < g[0].len() && visited_before(r, c, row, col) && #[trigger] g[r][c] == el
                    implies covered_by(next, r, c) by {
                if r == row && c == col - 1 {
                    assert(next[prev.len() as int] == b);
                    assert(b.contains(r, c));
                } else {
                    assert(covered_by(prev, r, c));
                    let k = choose|k: int| 0 <= k < prev.len() && (#[trigger] prev[k]).contains(r, c);
                    assert(next[k] == prev[k]);
                }
            }
        }
    }
}

/// The boxes of `el` are non-empty boxes of the grid whose cells all hold
/// `el` and that cannot grow by a row or a column, and every cell holding
/// `el` lies in one of them.
pub proof fn lemma_boxes_cover(g: Seq<Seq<MapElement>>, el: MapElement)
    requires
        grid_wf(g),
    ensures
        forall|i: int| 0 <= i < boxes_of(g, el).len() ==> good_box(g, el, #[trigger] boxes_of(g, el)[i]),
        forall|r: int, c: int|
            0 <= r < g.len() && 0 <= c < g[0].len() && #[trigger] g[r][c] == el ==> covered_by(boxes_of(g, el), r, c),
{
    let raw = cover_at(g, el, g.len() as int, 0);
    let sorted = boxes_of(g, el);
    lemma_cover_at(g, el, g.len() as int, 0);
    lemma_boxes_sorted(g, el);
    assert forall|i: int| 0 <= i < sorted.len() implies good_box(g, el, #[trigger] sorted[i]) by {
        assert(sorted.contains(sorted[i]));
        assert(raw.contains(sorted[i]));
        let k = choose|k: int| 0 <= k < raw.len() && raw[k] == sorted[i];
    }
    assert forall|r: int, c: int|
        0 <= r < g.len() && 0 <= c < g[0].len() && #[trigger] g[r][c] == el implies covered_by(sorted, r, c) by {
        assert(visited_before(r, c, g.len() as int, 0));
        let k = choose|k: int| 0 <= k < raw.len() && (#[trigger] raw[k]).contains(r, c);
        assert(raw.contains(raw[k]));
        assert(sorted.contains(raw[k]));
        let m = choose|m: int| 0 <= m < sorted.len() && sorted[m] == raw[k];
        assert(sorted[m].contains(r, c));
    }
}

} // verus!
