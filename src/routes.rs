//! Routes from households to stores over the road network.

use crate::cover::within;
use crate::geometry::BoundingBox;
use crate::maps::{CachedPath, Intersection, MapElement, MapError, WorldMap};
use crate::utils::random_index;
use pathfinding::directed::astar::astar;
use rand_chacha::ChaCha8Rng;
use vstd::prelude::*;

verus! {


/// Whether `a` and `b` are side by side: one step along a row or a column.
pub open spec fn adjacent(a: (u16, u16), b: (u16, u16)) -> bool {
    (a.0 == b.0 && (a.1 + 1 == b.1 || b.1 + 1 == a.1)) || (a.1 == b.1 && (a.0 + 1 == b.0 || b.0
        + 1 == a.0))
}

/// Whether `r` is the square root of `n` rounded down.
pub open spec fn floor_sqrt_spec(n: int, r: int) -> bool {
    r * r <= n < (r + 1) * (r + 1)
}

/// The route from a building cell through road cells to another building
/// cell.
pub open spec fn joined(first: (u16, u16), road: Seq<(u16, u16)>, last: (u16, u16)) -> Seq<(u16, u16)> {
    seq![first] + road + seq![last]
}

/// The route stored for household `h` and store `s`: the first entry for
/// that pair, if any.
pub open spec fn cached(entries: Seq<CachedPath>, h: int, s: int) -> Option<Seq<(u16, u16)>>
    decreases entries.len(),
{
    if entries.len() == 0 {
        None
    } else if entries[0].household_idx == h && entries[0].store_idx == s {
        Some(entries[0].path@)
    } else {
        cached(entries.drop_first(), h, s)
    }
}

impl WorldMap {
    /// Whether the world's sides fit the `u16` coordinates of routes.
    pub open spec fn fits_u16(&self) -> bool {
        self.world_bb.top <= 65536 && self.world_bb.right <= 65536
    }

    /// One move of a route over the roads: to a side-by-side road cell of
    /// the world.
    pub open spec fn road_step(&self, a: (u16, u16), b: (u16, u16)) -> bool {
        &&& adjacent(a, b)
        &&& (b.0 as int) < self.world_bb.top
        &&& (b.1 as int) < self.world_bb.right
        &&& self.element_at(b.0 as int, b.1 as int) == MapElement::Road
    }

    /// Whether `w` goes from `from` to `to` by road steps.
    pub open spec fn is_road_walk(&self, w: Seq<(u16, u16)>, from: (u16, u16), to: (u16, u16)) -> bool {
        &&& w.len() >= 1
        &&& w[0] == from
        &&& w.last() == to
        &&& forall|k: int| 0 <= k < w.len() - 1 ==> #[trigger] self.road_step(w[k], w[k + 1])
    }

    /// A road walk from `from` to `to` with no shorter one.
    pub open spec fn is_shortest_road_walk(&self, w: Seq<(u16, u16)>, from: (u16, u16), to: (u16, u16)) -> bool {
        &&& self.is_road_walk(w, from, to)
        &&& forall|v: Seq<(u16, u16)>| #[trigger] self.is_road_walk(v, from, to) ==> w.len() <= v.len()
    }

    /// Whether some road walk joins `from` to `to`.
    pub open spec fn connected(&self, from: (u16, u16), to: (u16, u16)) -> bool {
        exists|w: Seq<(u16, u16)>| #[trigger] self.is_road_walk(w, from, to)
    }

    /// The intersections of household `h`.
    pub open spec fn household_exits(&self, h: int) -> Seq<Intersection> {
        self.intersections(self.households@[h].bounds)
    }

    /// The intersections of store `s`.
    pub open spec fn store_entries(&self, s: int) -> Seq<Intersection> {
        self.intersections(self.stores@[s].bounds)
    }

    /// Whether `p` is a route that planning may give from household `h` to
    /// store `s`: a cell inside the household, a shortest road walk from the
    /// road next to it to the road next to the store, and the cell inside
    /// the store, for some intersection of each.
    pub open spec fn planned_route(&self, h: int, s: int, p: Seq<(u16, u16)>) -> bool {
        exists|i: int, j: int, w: Seq<(u16, u16)>|
            0 <= i < self.household_exits(h).len() && 0 <= j < self.store_entries(s).len()
                && #[trigger] self.is_shortest_road_walk(
                w,
                self.household_exits(h)[i].1,
                self.store_entries(s)[j].1,
            ) && p == joined(self.household_exits(h)[i].0, w, self.store_entries(s)[j].0)
    }

    /// Whether planning from household `h` to store `s` can fail: one of the
    /// two has no road next to it, or some pair of their intersections is
    /// not joined by road.
    pub open spec fn route_may_fail(&self, h: int, s: int) -> bool {
        ||| self.household_exits(h).len() == 0
        ||| self.store_entries(s).len() == 0
        ||| exists|i: int, j: int|
            0 <= i < self.household_exits(h).len() && 0 <= j < self.store_entries(s).len()
                && !#[trigger] self.connected(self.household_exits(h)[i].1, self.store_entries(s)[j].1)
    }

    /// Household `h` and store `s` exist and are non-empty boxes.
    pub open spec fn valid_trip(&self, h: int, s: int) -> bool {
        &&& 0 <= h < self.households@.len()
        &&& 0 <= s < self.stores@.len()
        &&& self.households@[h].bounds.bottom < self.households@[h].bounds.top
        &&& self.households@[h].bounds.left < self.households@[h].bounds.right
        &&& self.stores@[s].bounds.bottom < self.stores@[s].bounds.top
        &&& self.stores@[s].bounds.left < self.stores@[s].bounds.right
    }

    /// Everything but the route cache is the same in `self` and `other`.
    pub open spec fn same_layout(&self, other: &WorldMap) -> bool {
        &&& self.households == other.households
        &&& self.roads == other.roads
        &&& self.stores == other.stores
        &&& self.world_bb == other.world_bb
        &&& self.scale_factor == other.scale_factor
        &&& self.elements == other.elements
    }

    /// The road cells one step from `pos`, each at cost one, in the order
    /// row below, column left, column right, row above.
    pub fn road_successors(&self, pos: (u16, u16)) -> (r: Vec<((u16, u16), usize)>)
        requires
            self.wf(),
            self.scale_factor > 0,
            self.fits_u16(),
        ensures
            forall|k: int| 0 <= k < r@.len() ==> (#[trigger] r@[k]).1 == 1 && self.road_step(pos, r@[k].0),
            forall|b: (u16, u16)| #[trigger] self.road_step(pos, b) ==> exists|k: int| 0 <= k < r@.len() && (#[trigger] r@[k]).0 == b,
    {
        let top = self.world_bb.top;
        let right = self.world_bb.right;
        let row = pos.0 as usize;
        let col = pos.1 as usize;
        let mut out: Vec<((u16, u16), usize)> = Vec::new();
        let ghost k_below = out@.len();
        if row > 0 && row - 1 < top && col < right && self.get_element(row - 1, col) == MapElement::Road {
            out.push(((pos.0 - 1, pos.1), 1));
        }
        let ghost k_left = out@.len();
        if col > 0 && row < top && col - 1 < right && self.get_element(row, col - 1) == MapElement::Road {
            out.push(((pos.0, pos.1 - 1), 1));
        }
        let ghost k_right = out@.len();
        if col + 1 < right && row < top && self.get_element(row, col + 1) == MapElement::Road {
            out.push(((pos.0, pos.1 + 1), 1));
        }
        let ghost k_above = out@.len();
        if row + 1 < top && col < right && self.get_element(row + 1, col) == MapElement::Road {
            out.push(((pos.0 + 1, pos.1), 1));
        }
        proof {
            assert forall|b: (u16, u16)| #[trigger] self.road_step(pos, b) implies exists|k: int|
                0 <= k < out@.len() && (#[trigger] out@[k]).0 == b by {
                if b.0 + 1 == pos.0 && b.1 == pos.1 {
                    assert(out@[k_below as int].0 == b);
                } else if b.1 + 1 == pos.1 && b.0 == pos.0 {
                    assert(out@[k_left as int].0 == b);
                } else if pos.1 + 1 == b.1 && b.0 == pos.0 {
                    assert(out@[k_right as int].0 == b);
                } else {
                    assert(out@[k_above as int].0 == b);
                }
            }
        }
        out
    }
}

/// The largest `r` with `r * r <= n`.
pub fn floor_sqrt(n: u64) -> (r: u64)
    ensures
        floor_sqrt_spec(n as int, r as int),
{
    let mut lo: u64 = 0;
    let mut hi: u64 = 0x1_0000_0000;
    assert(n < hi * hi) by (nonlinear_arith)
        requires hi == 0x1_0000_0000, n <= u64::MAX;
    while hi - lo > 1
        invariant
            lo < hi <= 0x1_0000_0000,
            lo * lo <= n,
            n < hi * hi,
        decreases hi - lo,
    {
        let mid = lo + (hi - lo) / 2;
        assert(mid * mid <= 0xffff_ffff * 0xffff_ffff) by (nonlinear_arith)
            requires mid < 0x1_0000_0000;
        if mid * mid <= n {
            lo = mid;
        } else {
            hi = mid;
        }
    }
    assert(hi == lo + 1);
    lo
}

/// The straight-line distance between two cells, rounded down; never more
/// than the number of steps between them.
pub fn floor_distance(a: (u16, u16), b: (u16, u16)) -> (r: usize)
    ensures
        floor_sqrt_spec(
            (a.0 - b.0) * (a.0 - b.0) + (a.1 - b.1) * (a.1 - b.1),
            r as int,
        ),
{
    let dr: u64 = if a.0 >= b.0 { (a.0 - b.0) as u64 } else { (b.0 - a.0) as u64 };
    let dc: u64 = if a.1 >= b.1 { (a.1 - b.1) as u64 } else { (b.1 - a.1) as u64 };
    assert(dr * dr <= 0xffff * 0xffff) by (nonlinear_arith)
        requires dr <= 0xffff;
    assert(dc * dc <= 0xffff * 0xffff) by (nonlinear_arith)
        requires dc <= 0xffff;
    let n = dr * dr + dc * dc;
    assert(dr * dr == (a.0 - b.0) * (a.0 - b.0)) by (nonlinear_arith)
        requires dr == a.0 - b.0 || dr == b.0 - a.0;
    assert(dc * dc == (a.1 - b.1) * (a.1 - b.1)) by (nonlinear_arith)
        requires dc == a.1 - b.1 || dc == b.1 - a.1;
    let r = floor_sqrt(n);
    assert(r < 0x1_0000_0000) by (nonlinear_arith)
        requires r * r <= n, n < 0x1_0000_0000 * 0x1_0000_0000;
    r as usize
}

/// Whether `pos` is the goal cell.
pub fn same_cell(pos: (u16, u16), goal: (u16, u16)) -> (r: bool)
    ensures
        r == (pos == goal),
{
    pos.0 == goal.0 && pos.1 == goal.1
}

/// Relies on pathfinding::directed::astar::astar: from `from`, following
/// the moves of `road_successors` at unit cost, with a heuristic that never
/// overestimates (the rounded-down straight-line distance), it returns a
/// shortest path from `from` to the first node that passes the goal test,
/// or `None` when no path reaches one.
#[verifier::external_body]
fn shortest_road_walk(map: &WorldMap, from: (u16, u16), to: (u16, u16)) -> (r: Option<Vec<(u16, u16)>>)
    requires
        map.wf(),
        map.scale_factor > 0,
        map.fits_u16(),
    ensures
        match r {
            Some(p) => map.is_shortest_road_walk(p@, from, to),
            None => !map.connected(from, to),
        },
{
    astar(
        &from,
        |p| map.road_successors(*p),
        |p| floor_distance(*p, to),
        |p| same_cell(*p, to),
    ).map(|found| found.0)
}

/// A copy of a route.
fn copy_path(p: &Vec<(u16, u16)>) -> (r: Vec<(u16, u16)>)
    ensures
        r@ == p@,
{
    let mut out: Vec<(u16, u16)> = Vec::new();
    let mut i: usize = 0;
    while i < p.len()
        invariant
            i <= p@.len(),
            out@ =~= p@.subrange(0, i as int),
        decreases p@.len() - i,
    {
        out.push(p[i]);
        i += 1;
    }
    assert(p@.subrange(0, i as int) =~= p@);
    out
}

/// The cell `first`, then the road walk, then the cell `last`.
pub fn assemble_path(first: (u16, u16), road: &Vec<(u16, u16)>, last: (u16, u16)) -> (r: Vec<(u16, u16)>)
    ensures
        r@ == joined(first, road@, last),
{
    let mut out: Vec<(u16, u16)> = Vec::new();
    out.push(first);
    let mut i: usize = 0;
    while i < road.len()
        invariant
            i <= road@.len(),
            out@ =~= seq![first] + road@.subrange(0, i as int),
        decreases road@.len() - i,
    {
        out.push(road[i]);
        i += 1;
    }
    out.push(last);
    assert(road@.subrange(0, i as int) =~= road@);
    assert(out@ =~= joined(first, road@, last));
    out
}

/// The reverse of a route.
pub fn reverse_path(p: &Vec<(u16, u16)>) -> (r: Vec<(u16, u16)>)
    ensures
        r@ == p@.reverse(),
{
    let mut out: Vec<(u16, u16)> = Vec::new();
    let mut i: usize = p.len();
    while i > 0
        invariant
            i <= p@.len(),
            out@ =~= Seq::new((p@.len() - i) as nat, |k: int| p@[p@.len() - 1 - k]),
        decreases i,
    {
        i -= 1;
        out.push(p[i]);
    }
    assert(out@ =~= p@.reverse());
    out
}

proof fn lemma_cached_push(entries: Seq<CachedPath>, e: CachedPath, h: int, s: int)
    ensures
        cached(entries.push(e), h, s) == (if cached(entries, h, s) is Some {
            cached(entries, h, s)
        } else if e.household_idx == h && e.store_idx == s {
            Some(e.path@)
        } else {
            None
        }),
    decreases entries.len(),
{
    if entries.len() > 0 {
        assert(entries.push(e)[0] == entries[0]);
        assert(entries.push(e).drop_first() =~= entries.drop_first().push(e));
        lemma_cached_push(entries.drop_first(), e, h, s);
    } else {
        assert(entries.push(e)[0] == e);
        assert(entries.push(e).drop_first() =~= Seq::<CachedPath>::empty());
        assert(cached(Seq::<CachedPath>::empty(), h, s) is None);
        assert(cached(entries, h, s) is None);
    }
}

proof fn lemma_cached_found(entries: Seq<CachedPath>, h: int, s: int)
    ensures
        cached(entries, h, s) is Some ==> exists|i: int|
            0 <= i < entries.len() && (#[trigger] entries[i]).household_idx == h && entries[i].store_idx == s
                && entries[i].path@ == cached(entries, h, s)->0,
        cached(entries, h, s) is None ==> forall|i: int|
            0 <= i < entries.len() ==> !((#[trigger] entries[i]).household_idx == h && entries[i].store_idx == s),
    decreases entries.len(),
{
    if entries.len() > 0 {
        let rest = entries.drop_first();
        lemma_cached_found(rest, h, s);
        if !(entries[0].household_idx == h && entries[0].store_idx == s) {
            if cached(entries, h, s) is Some {
                let k = choose|k: int|
                    0 <= k < rest.len() && (#[trigger] rest[k]).household_idx == h && rest[k].store_idx == s
                        && rest[k].path@ == cached(rest, h, s)->0;
                assert(entries[k + 1] == rest[k]);
            } else {
                assert forall|i: int| 0 <= i < entries.len() implies !((#[trigger] entries[i]).household_idx == h
                    && entries[i].store_idx == s) by {
                    if i > 0 {
                        assert(entries[i] == rest[i - 1]);
                    }
                }
            }
        }
    }
}

proof fn lemma_row_hits_layout(a: WorldMap, b: WorldMap, inside: int, outside: int, c0: int, c1: int)
    requires
        a.same_layout(&b),
    ensures
        a.row_hits(inside, outside, c0, c1) == b.row_hits(inside, outside, c0, c1),
    decreases c1 - c0,
{
    if c1 > c0 {
        lemma_row_hits_layout(a, b, inside, outside, c0, c1 - 1);
    }
}

proof fn lemma_col_hits_layout(a: WorldMap, b: WorldMap, inside: int, outside: int, r0: int, r1: int)
    requires
        a.same_layout(&b),
    ensures
        a.col_hits(inside, outside, r0, r1) == b.col_hits(inside, outside, r0, r1),
    decreases r1 - r0,
{
    if r1 > r0 {
        lemma_col_hits_layout(a, b, inside, outside, r0, r1 - 1);
    }
}

/// Two maps that differ only in their caches plan the same routes.
proof fn lemma_layout_routes(a: WorldMap, b: WorldMap)
    requires
        a.same_layout(&b),
    ensures
        forall|h: int, s: int| #[trigger] a.valid_trip(h, s) == b.valid_trip(h, s),
        forall|h: int, s: int, p: Seq<(u16, u16)>| #[trigger] a.planned_route(h, s, p) == b.planned_route(h, s, p),
{
    assert forall|bb: BoundingBox| #[trigger] a.intersections(bb) == b.intersections(bb) by {
        lemma_row_hits_layout(a, b, bb.bottom as int, bb.bottom - 1, bb.left as int, bb.right as int);
        lemma_col_hits_layout(a, b, bb.left as int, bb.left - 1, bb.bottom as int, bb.top as int);
        lemma_row_hits_layout(a, b, bb.top - 1, bb.top as int, bb.left as int, bb.right as int);
        lemma_col_hits_layout(a, b, bb.right - 1, bb.right as int, bb.bottom as int, bb.top as int);
    }
    assert forall|x: (u16, u16), y: (u16, u16)| #[trigger] a.road_step(x, y) == b.road_step(x, y) by {
        assert(a.element_at(y.0 as int, y.1 as int) == b.element_at(y.0 as int, y.1 as int));
    }
    assert forall|w: Seq<(u16, u16)>, f: (u16, u16), t: (u16, u16)| #[trigger] a.is_road_walk(w, f, t) == b.is_road_walk(w, f, t) by {
        if a.is_road_walk(w, f, t) {
            assert forall|k: int| 0 <= k < w.len() - 1 implies #[trigger] b.road_step(w[k], w[k + 1]) by {
                assert(a.road_step(w[k], w[k + 1]));
            }
        }
        if b.is_road_walk(w, f, t) {
            assert forall|k: int| 0 <= k < w.len() - 1 implies #[trigger] a.road_step(w[k], w[k + 1]) by {
                assert(b.road_step(w[k], w[k + 1]));
            }
        }
    }
    assert forall|w: Seq<(u16, u16)>, f: (u16, u16), t: (u16, u16)|
        #[trigger] a.is_shortest_road_walk(w, f, t) == b.is_shortest_road_walk(w, f, t) by {
        if a.is_shortest_road_walk(w, f, t) {
            assert forall|v: Seq<(u16, u16)>| #[trigger] b.is_road_walk(v, f, t) implies w.len() <= v.len() by {
                assert(a.is_road_walk(v, f, t));
            }
        }
        if b.is_shortest_road_walk(w, f, t) {
            assert forall|v: Seq<(u16, u16)>| #[trigger] a.is_road_walk(v, f, t) implies w.len() <= v.len() by {
                assert(b.is_road_walk(v, f, t));
            }
        }
    }
    assert forall|h: int, s: int, p: Seq<(u16, u16)>| #[trigger] a.planned_route(h, s, p) == b.planned_route(h, s, p) by {
        assert(a.household_exits(h) == b.household_exits(h));
        assert(a.store_entries(s) == b.store_entries(s));
        if a.planned_route(h, s, p) {
            let (i, j, w) = choose|i: int, j: int, w: Seq<(u16, u16)>|
                0 <= i < a.household_exits(h).len() && 0 <= j < a.store_entries(s).len()
                    && #[trigger] a.is_shortest_road_walk(w, a.household_exits(h)[i].1, a.store_entries(s)[j].1)
                    && p == joined(a.household_exits(h)[i].0, w, a.store_entries(s)[j].0);
            assert(b.is_shortest_road_walk(w, b.household_exits(h)[i].1, b.store_entries(s)[j].1));
        }
        if b.planned_route(h, s, p) {
            let (i, j, w) = choose|i: int, j: int, w: Seq<(u16, u16)>|
                0 <= i < b.household_exits(h).len() && 0 <= j < b.store_entries(s).len()
                    && #[trigger] b.is_shortest_road_walk(w, b.household_exits(h)[i].1, b.store_entries(s)[j].1)
                    && p == joined(b.household_exits(h)[i].0, w, b.store_entries(s)[j].0);
            assert(a.is_shortest_road_walk(w, a.household_exits(h)[i].1, a.store_entries(s)[j].1));
        }
    }
}

impl WorldMap {
    /// Every cached route is a planned route of its pair, for a trip that
    /// can be planned, and no pair is cached twice.
    pub open spec fn cache_wf(&self) -> bool {
        &&& forall|i: int|
            0 <= i < self.path_cache@.len() ==> {
                &&& self.valid_trip(
                    (#[trigger] self.path_cache@[i]).household_idx as int,
                    self.path_cache@[i].store_idx as int,
                )
                &&& self.planned_route(
                    self.path_cache@[i].household_idx as int,
                    self.path_cache@[i].store_idx as int,
                    self.path_cache@[i].path@,
                )
            }
        &&& forall|i: int, j: int|
            0 <= i < j < self.path_cache@.len() ==> !((#[trigger] self.path_cache@[i]).household_idx
                == (#[trigger] self.path_cache@[j]).household_idx && self.path_cache@[i].store_idx
                == self.path_cache@[j].store_idx)
    }

    /// The index of the first cache entry for household `h` and store `s`.
    fn find_cached(&self, h: usize, s: usize) -> (r: Option<usize>)
        ensures
            match r {
                Some(i) => i < self.path_cache@.len() && cached(self.path_cache@, h as int, s as int)
                    == Some(self.path_cache@[i as int].path@),
                None => cached(self.path_cache@, h as int, s as int) is None,
            },
    {
        let mut i: usize = 0;
        assert(self.path_cache@.subrange(0, self.path_cache@.len() as int) =~= self.path_cache@);
        while i < self.path_cache.len()
            invariant
                i <= self.path_cache@.len(),
                cached(self.path_cache@, h as int, s as int) == cached(
                    self.path_cache@.subrange(i as int, self.path_cache@.len() as int),
                    h as int,
                    s as int,
                ),
            decreases self.path_cache@.len() - i,
        {
            let ghost rest = self.path_cache@.subrange(i as int, self.path_cache@.len() as int);
            assert(rest[0] == self.path_cache@[i as int]);
            if self.path_cache[i].household_idx == h && self.path_cache[i].store_idx == s {
                return Some(i);
            }
            assert(rest.drop_first() =~= self.path_cache@.subrange(i + 1, self.path_cache@.len() as int));
            i += 1;
        }
        None
    }

    /// The route from a cell of household `household_idx` through the roads
    /// to a cell of store `store_idx`. A route planned before for the pair
    /// is handed back as it was; otherwise one intersection of each building
    /// is drawn at random, a shortest road walk between them is found, and
    /// the route is kept for later calls.
    pub fn get_household_to_store_path(&mut self, household_idx: usize, store_idx: usize, rng: &mut ChaCha8Rng) -> (r: Result<Vec<(u16, u16)>, MapError>)
        requires
            old(self).wf(),
            old(self).scale_factor > 0,
            old(self).fits_u16(),
            old(self).valid_trip(household_idx as int, store_idx as int),
            old(self).cache_wf(),
        ensures
            final(self).wf(),
            final(self).cache_wf(),
            final(self).same_layout(&*old(self)),
            r is Ok ==> old(self).planned_route(household_idx as int, store_idx as int, r->Ok_0@),
            match cached(old(self).path_cache@, household_idx as int, store_idx as int) {
                Some(p) => {
                    &&& r is Ok
                    &&& r->Ok_0@ == p
                    &&& final(self).path_cache@ == old(self).path_cache@
                    &&& *final(rng) == *old(rng)
                },
                None => match r {
                    Ok(p) => {
                        &&& final(self).path_cache@.len() == old(self).path_cache@.len() + 1
                        &&& final(self).path_cache@.subrange(0, old(self).path_cache@.len() as int) == old(self).path_cache@
                        &&& cached(final(self).path_cache@, household_idx as int, store_idx as int) == Some(p@)
                    },
                    Err(e) => {
                        &&& e == MapError::NoPath
                        &&& old(self).route_may_fail(household_idx as int, store_idx as int)
                        &&& final(self).path_cache@ == old(self).path_cache@
                    },
                },
            },
    {
        proof {
            lemma_cached_found(self.path_cache@, household_idx as int, store_idx as int);
        }
        if let Some(i) = self.find_cached(household_idx, store_idx) {
            let p = copy_path(&self.path_cache[i].path);
            proof {
                let k = choose|k: int|
                    0 <= k < self.path_cache@.len() && (#[trigger] self.path_cache@[k]).household_idx
                        == household_idx && self.path_cache@[k].store_idx == store_idx
                        && self.path_cache@[k].path@ == cached(self.path_cache@, household_idx as int, store_idx as int)->0;
            }
            return Ok(p);
        }
        let household_bb = self.households[household_idx].bounds;
        let starts = self.find_bb_road_intersection(&household_bb);
        if starts.len() == 0 {
            return Err(MapError::NoPath);
        }
        let store_bb = self.stores[store_idx].bounds;
        let ends = self.find_bb_road_intersection(&store_bb);
        if ends.len() == 0 {
            return Err(MapError::NoPath);
        }
        let i = random_index(rng, starts.len());
        let start = starts[i];
        let j = random_index(rng, ends.len());
        let end = ends[j];
        match shortest_road_walk(self, start.1, end.1) {
            None => {
                assert(!self.connected(self.household_exits(household_idx as int)[i as int].1, self.store_entries(store_idx as int)[j as int].1));
                Err(MapError::NoPath)
            },
            Some(road) => {
                let path = assemble_path(start.0, &road, end.0);
                assert(self.is_shortest_road_walk(road@, self.household_exits(household_idx as int)[i as int].1, self.store_entries(store_idx as int)[j as int].1));
                assert(self.planned_route(household_idx as int, store_idx as int, path@));
                let ghost before = self.path_cache@;
                let kept = copy_path(&path);
                let entry = CachedPath { household_idx, store_idx, path: kept };
                proof {
                    lemma_cached_push(before, entry, household_idx as int, store_idx as int);
                }
                let ghost old_map = *self;
                self.path_cache.push(entry);
                assert(self.path_cache@.subrange(0, before.len() as int) =~= before);
                proof {
                    lemma_layout_routes(*self, old_map);
                    assert forall|k: int| 0 <= k < self.path_cache@.len() implies {
                        &&& self.valid_trip(
                            (#[trigger] self.path_cache@[k]).household_idx as int,
                            self.path_cache@[k].store_idx as int,
                        )
                        &&& self.planned_route(
                            self.path_cache@[k].household_idx as int,
                            self.path_cache@[k].store_idx as int,
                            self.path_cache@[k].path@,
                        )
                    } by {
                        if k < before.len() {
                            assert(self.path_cache@[k] == before[k]);
                            assert(old_map.path_cache@[k] == before[k]);
                        } else {
                            assert(self.path_cache@[k] == entry);
                        }
                    }
                    assert forall|a: int, b: int| 0 <= a < b < self.path_cache@.len() implies !((#[trigger] self.path_cache@[a]).household_idx
                        == (#[trigger] self.path_cache@[b]).household_idx && self.path_cache@[a].store_idx
                        == self.path_cache@[b].store_idx) by {
                        assert(self.path_cache@[a] == before[a]);
                        if b < before.len() {
                            assert(self.path_cache@[b] == before[b]);
                            assert(old_map.path_cache@[a] == before[a] && old_map.path_cache@[b] == before[b]);
                        } else {
                            assert(self.path_cache@[b] == entry);
                        }
                    }
                }
                Ok(path)
            },
        }
    }

    /// The route from store `store_idx` back to household `household_idx`:
    /// the route from the household to the store, reversed.
    pub fn get_store_to_household_path(&mut self, store_idx: usize, household_idx: usize, rng: &mut ChaCha8Rng) -> (r: Result<Vec<(u16, u16)>, MapError>)
        requires
            old(self).wf(),
            old(self).scale_factor > 0,
            old(self).fits_u16(),
            old(self).valid_trip(household_idx as int, store_idx as int),
            old(self).cache_wf(),
        ensures
            final(self).wf(),
            final(self).cache_wf(),
            final(self).same_layout(&*old(self)),
            r is Ok ==> old(self).planned_route(household_idx as int, store_idx as int, r->Ok_0@.reverse()),
            match cached(old(self).path_cache@, household_idx as int, store_idx as int) {
                Some(p) => {
                    &&& r is Ok
                    &&& r->Ok_0@ == p.reverse()
                    &&& final(self).path_cache@ == old(self).path_cache@
                    &&& *final(rng) == *old(rng)
                },
                None => match r {
                    Ok(q) => {
                        &&& final(self).path_cache@.len() == old(self).path_cache@.len() + 1
                        &&& final(self).path_cache@.subrange(0, old(self).path_cache@.len() as int) == old(self).path_cache@
                        &&& cached(final(self).path_cache@, household_idx as int, store_idx as int) == Some(q@.reverse())
                    },
                    Err(e) => {
                        &&& e == MapError::NoPath
                        &&& old(self).route_may_fail(household_idx as int, store_idx as int)
                        &&& final(self).path_cache@ == old(self).path_cache@
                    },
                },
            },
    {
        match self.get_household_to_store_path(household_idx, store_idx, rng) {
            Ok(p) => {
                let q = reverse_path(&p);
                proof {
                    lemma_reverse_twice(p@);
                }
                Ok(q)
            },
            Err(e) => Err(e),
        }
    }
}

proof fn lemma_reverse_twice(s: Seq<(u16, u16)>)
    ensures
        s.reverse().reverse() == s,
{
    assert(s.reverse().reverse() =~= s);
}


/// Whether the cell `(row, col)` lies in `bb`.
pub open spec fn cell_in(bb: BoundingBox, cell: (u16, u16)) -> bool {
    bb.contains(cell.0 as int, cell.1 as int)
}

/// An intersection of `bb`: a cell of `bb` and, side by side with it, a
/// road cell of the world.
pub open spec fn good_intersection(map: WorldMap, bb: BoundingBox, e: Intersection) -> bool {
    &&& cell_in(bb, e.0)
    &&& adjacent(e.0, e.1)
    &&& (e.1.0 as int) < map.world_bb.top
    &&& (e.1.1 as int) < map.world_bb.right
    &&& map.element_at(e.1.0 as int, e.1.1 as int) == MapElement::Road
}

proof fn lemma_row_hits(map: WorldMap, bb: BoundingBox, inside: int, outside: int, c0: int, c1: int)
    requires
        map.fits_u16(),
        bb.bottom <= inside < bb.top,
        outside == inside - 1 || outside == inside + 1,
        0 <= outside < map.world_bb.top,
        bb.left <= c0,
        c1 <= bb.right,
        bb.right <= map.world_bb.right,
        bb.top <= map.world_bb.top,
    ensures
        forall|k: int| 0 <= k < map.row_hits(inside, outside, c0, c1).len()
            ==> good_intersection(map, bb, #[trigger] map.row_hits(inside, outside, c0, c1)[k]),
    decreases c1 - c0,
{
    if c1 > c0 {
        lemma_row_hits(map, bb, inside, outside, c0, c1 - 1);
        let prev = map.row_hits(inside, outside, c0, c1 - 1);
        if map.element_at(outside, c1 - 1) == MapElement::Road {
            let e = ((inside as u16, (c1 - 1) as u16), (outside as u16, (c1 - 1) as u16));
            assert(map.row_hits(inside, outside, c0, c1) == prev.push(e));
            assert forall|k: int| 0 <= k < prev.len() + 1 implies good_intersection(map, bb, #[trigger] prev.push(e)[k]) by {
                if k < prev.len() {
                    assert(prev.push(e)[k] == prev[k]);
                }
            }
        }
    }
}

proof fn lemma_col_hits(map: WorldMap, bb: BoundingBox, inside: int, outside: int, r0: int, r1: int)
    requires
        map.fits_u16(),
        bb.left <= inside < bb.right,
        outside == inside - 1 || outside == inside + 1,
        0 <= outside < map.world_bb.right,
        bb.bottom <= r0,
        r1 <= bb.top,
        bb.right <= map.world_bb.right,
        bb.top <= map.world_bb.top,
    ensures
        forall|k: int| 0 <= k < map.col_hits(inside, outside, r0, r1).len()
            ==> good_intersection(map, bb, #[trigger] map.col_hits(inside, outside, r0, r1)[k]),
    decreases r1 - r0,
{
    if r1 > r0 {
        lemma_col_hits(map, bb, inside, outside, r0, r1 - 1);
        let prev = map.col_hits(inside, outside, r0, r1 - 1);
        if map.element_at(r1 - 1, outside) == MapElement::Road {
            let e = (((r1 - 1) as u16, inside as u16), ((r1 - 1) as u16, outside as u16));
            assert(map.col_hits(inside, outside, r0, r1) == prev.push(e));
            assert forall|k: int| 0 <= k < prev.len() + 1 implies good_intersection(map, bb, #[trigger] prev.push(e)[k]) by {
                if k < prev.len() {
                    assert(prev.push(e)[k] == prev[k]);
                }
            }
        }
    }
}

/// Every intersection of a building pairs a cell of the building with a
/// road cell of the world beside it.
pub proof fn lemma_intersections(map: WorldMap, bb: BoundingBox)
    requires
        map.wf(),
        map.fits_u16(),
        within(bb, map.world_bb.top as int, map.world_bb.right as int),
        bb.bottom < bb.top,
        bb.left < bb.right,
    ensures
        forall|k: int| 0 <= k < map.intersections(bb).len() ==> good_intersection(map, bb, #[trigger] map.intersections(bb)[k]),
{
    let w = map.world_bb;
    let a = if bb.bottom > w.bottom {
        map.row_hits(bb.bottom as int, bb.bottom - 1, bb.left as int, bb.right as int)
    } else {
        Seq::empty()
    };
    let b = if bb.left > w.left {
        map.col_hits(bb.left as int, bb.left - 1, bb.bottom as int, bb.top as int)
    } else {
        Seq::empty()
    };
    let c = if bb.top < w.top {
        map.row_hits(bb.top - 1, bb.top as int, bb.left as int, bb.right as int)
    } else {
        Seq::empty()
    };
    let d = if bb.right < w.right {
        map.col_hits(bb.right - 1, bb.right as int, bb.bottom as int, bb.top as int)
    } else {
        Seq::empty()
    };
    if bb.bottom > w.bottom {
        lemma_row_hits(map, bb, bb.bottom as int, bb.bottom - 1, bb.left as int, bb.right as int);
    }
    if bb.left > w.left {
        lemma_col_hits(map, bb, bb.left as int, bb.left - 1, bb.bottom as int, bb.top as int);
    }
    if bb.top < w.top {
        lemma_row_hits(map, bb, bb.top - 1, bb.top as int, bb.left as int, bb.right as int);
    }
    if bb.right < w.right {
        lemma_col_hits(map, bb, bb.right - 1, bb.right as int, bb.bottom as int, bb.top as int);
    }
    let all = map.intersections(bb);
    assert(all == a + b + c + d);
    assert forall|k: int| 0 <= k < all.len() implies good_intersection(map, bb, #[trigger] all[k]) by {
        if k < a.len() {
            assert(all[k] == a[k]);
        } else if k < a.len() + b.len() {
            assert(all[k] == b[k - a.len()]);
        } else if k < a.len() + b.len() + c.len() {
            assert(all[k] == c[k - a.len() - b.len()]);
        } else {
            assert(all[k] == d[k - a.len() - b.len() - c.len()]);
        }
    }
}

/// A planned route starts on a cell of the household, ends on a cell of
/// the store, runs over road cells in between, and moves to a side-by-side
/// cell at every step.
pub proof fn lemma_route_shape(map: WorldMap, h: int, s: int, p: Seq<(u16, u16)>)
    requires
        map.wf(),
        map.fits_u16(),
        map.valid_trip(h, s),
        map.planned_route(h, s, p),
    ensures
        p.len() >= 3,
        cell_in(map.households@[h].bounds, p[0]),
        cell_in(map.stores@[s].bounds, p.last()),
        forall|k: int| 1 <= k < p.len() - 1 ==> map.element_at((#[trigger] p[k]).0 as int, p[k].1 as int) == MapElement::Road,
        forall|k: int| 0 <= k < p.len() - 1 ==> adjacent(#[trigger] p[k], p[k + 1]),
{
    let starts = map.household_exits(h);
    let ends = map.store_entries(s);
    let (i, j, w) = choose|i: int, j: int, w: Seq<(u16, u16)>|
        0 <= i < starts.len() && 0 <= j < ends.len()
            && #[trigger] map.is_shortest_road_walk(w, starts[i].1, ends[j].1)
            && p == joined(starts[i].0, w, ends[j].0);
    lemma_intersections(map, map.households@[h].bounds);
    lemma_intersections(map, map.stores@[s].bounds);
    assert(good_intersection(map, map.households@[h].bounds, starts[i]));
    assert(good_intersection(map, map.stores@[s].bounds, ends[j]));
    assert(p.len() == w.len() + 2);
    assert(p[0] == starts[i].0);
    assert(p.last() == ends[j].0);
    assert forall|k: int| 1 <= k < p.len() - 1 implies map.element_at((#[trigger] p[k]).0 as int, p[k].1 as int) == MapElement::Road by {
        assert(p[k] == w[k - 1]);
        if k > 1 {
            let m = k - 2;
            assert(map.road_step(w[m], w[m + 1]));
        }
    }
    assert forall|k: int| 0 <= k < p.len() - 1 implies adjacent(#[trigger] p[k], p[k + 1]) by {
        if k == 0 {
            assert(p[1] == w[0]);
        } else if k == p.len() - 2 {
            assert(p[k] == w[w.len() - 1]);
        } else {
            let m = k - 1;
            assert(p[k] == w[m] && p[k + 1] == w[m + 1]);
            assert(map.road_step(w[m], w[m + 1]));
        }
    }
}

} // verus!
