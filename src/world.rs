use crate::maps::{MapElement, MapError, WorldMap};
use vstd::prelude::*;

verus! {

/// Why a world could not be built.
#[derive(Debug, Clone, Copy, PartialEq, Eq, Structural)]
pub enum WorldError {
    /// The map could not be loaded.
    MapLoad(MapError),
    /// More people initially infected than people, shoppers without a map,
    /// or more people than the households of the map can take.
    BadConfig,
}

/// Checks the parts of a configuration that a world needs: no more people
/// initially infected than people, and a map wherever the behaviour needs
/// one.
pub fn validate_config(
    num_people: usize,
    num_initially_infected: usize,
    needs_map: bool,
    has_map: bool,
) -> (r: Result<(), WorldError>)
    ensures
        r is Ok <==> num_initially_infected <= num_people && (needs_map ==> has_map),
        r is Err ==> r == Err::<(), WorldError>(WorldError::BadConfig),
{
    if num_initially_infected > num_people || (needs_map && !has_map) {
        Err(WorldError::BadConfig)
    } else {
        Ok(())
    }
}

/// The household of each of `num_people` people, filled in order with
/// `per_household` people each, and whether the person is the first of
/// the household, its head.
pub fn assign_households(num_people: usize, per_household: u8, num_households: usize) -> (r: Vec<(usize, bool)>)
    requires
        per_household >= 1,
        num_people <= per_household * num_households,
    ensures
        r@.len() == num_people,
        forall|i: int|
            0 <= i < num_people ==> {
                &&& (#[trigger] r@[i]).0 < num_households
                &&& r@[i].0 * per_household <= i < (r@[i].0 + 1) * per_household
                &&& r@[i].1 == (i == r@[i].0 * per_household)
            },
{
    let n = per_household as usize;
    let mut out: Vec<(usize, bool)> = Vec::new();
    let mut current: usize = 0;
    let mut in_current: usize = 0;
    let mut i: usize = 0;
    while i < num_people
        invariant
            n == per_household,
            n >= 1,
            num_people <= n * num_households,
            i <= num_people,
            out@.len() == i,
            in_current <= n,
            i == current * n + in_current,
            forall|j: int|
                0 <= j < i ==> {
                    &&& (#[trigger] out@[j]).0 < num_households
                    &&& out@[j].0 * n <= j < (out@[j].0 + 1) * n
                    &&& out@[j].1 == (j == out@[j].0 * n)
                },
        decreases num_people - i,
    {
        if in_current == n {
            assert((current + 1) * n == current * n + n) by (nonlinear_arith);
            assert(current + 1 <= (current + 1) * n) by (nonlinear_arith)
                requires n >= 1, current >= 0;
            current = current + 1;
            in_current = 0;
        }
        in_current = in_current + 1;
        assert((current + 1) * n == current * n + n) by (nonlinear_arith);
        assert(current < num_households) by (nonlinear_arith)
            requires
                current * n + in_current - 1 < num_people,
                num_people <= n * num_households,
                in_current >= 1,
                n >= 1,
        ;
        out.push((current, in_current == 1));
        i += 1;
    }
    out
}

/// Whether one of the first `upto` people heads household `h`.
pub open spec fn has_head(homes: Seq<(usize, bool)>, h: int, upto: int) -> bool {
    exists|j: int| 0 <= j < upto && #[trigger] homes[j] == (h as usize, true)
}

/// The head of each of `num_households` households, from each person's
/// household and head flag: the person flagged as head of the household
/// (the last one, if several are), or 0 where nobody is.
pub fn heads_of_households(homes: &Vec<(usize, bool)>, num_households: usize) -> (r: Vec<usize>)
    requires
        forall|i: int| 0 <= i < homes@.len() && (#[trigger] homes@[i]).1 ==> homes@[i].0 < num_households,
    ensures
        r@.len() == num_households,
        forall|h: int|
            0 <= h < num_households ==> if has_head(homes@, h, homes@.len() as int) {
                &&& (#[trigger] r@[h]) < homes@.len()
                &&& homes@[r@[h] as int] == (h as usize, true)
                &&& forall|j: int| r@[h] < j < homes@.len() ==> homes@[j] != (h as usize, true)
            } else {
                r@[h] == 0
            },
{
    let mut heads: Vec<usize> = Vec::new();
    let mut h: usize = 0;
    while h < num_households
        invariant
            h <= num_households,
            heads@.len() == h,
            forall|k: int| 0 <= k < h ==> #[trigger] heads@[k] == 0,
        decreases num_households - h,
    {
        heads.push(0);
        h += 1;
    }
    let mut i: usize = 0;
    while i < homes.len()
        invariant
            i <= homes@.len(),
            heads@.len() == num_households,
            forall|k: int| 0 <= k < homes@.len() && (#[trigger] homes@[k]).1 ==> homes@[k].0 < num_households,
            forall|g: int|
                0 <= g < num_households ==> if has_head(homes@, g, i as int) {
                    &&& (#[trigger] heads@[g]) < i
                    &&& homes@[heads@[g] as int] == (g as usize, true)
                    &&& forall|j: int| heads@[g] < j < i ==> homes@[j] != (g as usize, true)
                } else {
                    heads@[g] == 0
                },
        decreases homes@.len() - i,
    {
        let (g, is_head) = homes[i];
        let ghost before = heads@;
        if is_head {
            heads.set(g, i);
        }
        proof {
            assert forall|q: int| 0 <= q < num_households implies if has_head(homes@, q, i + 1) {
                &&& (#[trigger] heads@[q]) < i + 1
                &&& homes@[heads@[q] as int] == (q as usize, true)
                &&& forall|j: int| heads@[q] < j < i + 1 ==> homes@[j] != (q as usize, true)
            } else {
                heads@[q] == 0
            } by {
                if is_head && q == g as int {
                    assert(homes@[i as int] == (q as usize, true));
                    assert(has_head(homes@, q, i + 1));
                } else {
                    assert(heads@[q] == before[q]);
                    assert(homes@[i as int] != (q as usize, true));
                    if has_head(homes@, q, i + 1) {
                        let j = choose|j: int| 0 <= j < i + 1 && #[trigger] homes@[j] == (q as usize, true);
                        assert(has_head(homes@, q, i as int));
                    }
                    if has_head(homes@, q, i as int) {
                        let j = choose|j: int| 0 <= j < i && #[trigger] homes@[j] == (q as usize, true);
                        assert(has_head(homes@, q, i + 1) && homes@[j] == (q as usize, true));
                    }
                }
            }
        }
        i += 1;
    }
    heads
}

/// The index that follows `idx` on a route: three cells on at a time
/// along roads, one at a time inside buildings.
pub fn path_step(map: &WorldMap, path: &Vec<(u16, u16)>, idx: usize) -> (r: usize)
    requires
        map.wf(),
        map.scale_factor > 0,
        idx < path@.len(),
        idx + 3 <= usize::MAX,
        (path@[idx as int].0 as int) < map.world_bb.top,
        (path@[idx as int].1 as int) < map.world_bb.right,
    ensures
        r == idx + if map.element_at(path@[idx as int].0 as int, path@[idx as int].1 as int)
            == MapElement::Road {
            3int
        } else {
            1int
        },
{
    let cell = path[idx];
    if map.get_element(cell.0 as usize, cell.1 as usize) == MapElement::Road {
        idx + 3
    } else {
        idx + 1
    }
}

/// Whether `p` lies in the exhale stencil: each offset strictly less than
/// `reach` in size, and at most `reach_sq` away in squared distance.
pub open spec fn in_stencil(reach: int, reach_sq: int, p: (i32, i32)) -> bool {
    &&& -reach < p.0 < reach
    &&& -reach < p.1 < reach
    &&& p.0 * p.0 + p.1 * p.1 <= reach_sq
}

/// Lexicographic order on offsets.
pub open spec fn offset_lt(a: (i32, i32), b: (i32, i32)) -> bool {
    a.0 < b.0 || (a.0 == b.0 && a.1 < b.1)
}

/// The cell offsets that an infectious person breathes out onto, in order
/// of the first offset, then the second.
pub fn exhale_stencil(reach: i32, reach_sq: i32) -> (r: Vec<(i32, i32)>)
    requires
        0 <= reach <= 0x1000_0000,
    ensures
        forall|i: int| 0 <= i < r@.len() ==> in_stencil(reach as int, reach_sq as int, #[trigger] r@[i]),
        forall|p: (i32, i32)| in_stencil(reach as int, reach_sq as int, p) ==> #[trigger] r@.contains(p),
        forall|i: int, j: int| 0 <= i < j < r@.len() ==> offset_lt(#[trigger] r@[i], #[trigger] r@[j]),
{
    let mut out: Vec<(i32, i32)> = Vec::new();
    let mut x: i32 = -reach + 1;
    while x < reach
        invariant
            0 <= reach <= 0x1000_0000,
            -reach < x <= reach + 1,
            forall|i: int| 0 <= i < out@.len() ==> in_stencil(reach as int, reach_sq as int, #[trigger] out@[i]),
            forall|i: int| 0 <= i < out@.len() ==> (#[trigger] out@[i]).0 < x,
            forall|p: (i32, i32)| in_stencil(reach as int, reach_sq as int, p) && p.0 < x ==> #[trigger] out@.contains(p),
            forall|i: int, j: int| 0 <= i < j < out@.len() ==> offset_lt(#[trigger] out@[i], #[trigger] out@[j]),
        decreases reach - x,
    {
        let mut y: i32 = -reach + 1;
        while y < reach
            invariant
                0 <= reach <= 0x1000_0000,
                -reach < x < reach,
                -reach < y <= reach,
                forall|i: int| 0 <= i < out@.len() ==> in_stencil(reach as int, reach_sq as int, #[trigger] out@[i]),
                forall|i: int| 0 <= i < out@.len() ==> offset_lt(#[trigger] out@[i], (x, y)),
                forall|p: (i32, i32)|
                    in_stencil(reach as int, reach_sq as int, p) && offset_lt(p, (x, y)) ==> #[trigger] out@.contains(p),
                forall|i: int, j: int| 0 <= i < j < out@.len() ==> offset_lt(#[trigger] out@[i], #[trigger] out@[j]),
            decreases reach - y,
        {
            let xx = x as i64;
            let yy = y as i64;
            assert(xx * xx <= 0x1000_0000 * 0x1000_0000) by (nonlinear_arith)
                requires -0x1000_0000 <= xx <= 0x1000_0000;
            assert(yy * yy <= 0x1000_0000 * 0x1000_0000) by (nonlinear_arith)
                requires -0x1000_0000 <= yy <= 0x1000_0000;
            assert(xx * xx >= 0) by (nonlinear_arith);
            assert(yy * yy >= 0) by (nonlinear_arith);
            let ghost before = out@;
            if xx * xx + yy * yy <= reach_sq as i64 {
                out.push((x, y));
                proof {
                    assert(out@ == before.push((x, y)));
                    assert forall|p: (i32, i32)|
                        in_stencil(reach as int, reach_sq as int, p) && offset_lt(p, (x, (y + 1) as i32)) implies #[trigger] out@.contains(p) by {
                        if p == (x, y) {
                            assert(out@[before.len() as int] == p);
                        } else {
                            assert(before.contains(p));
                            let k = choose|k: int| 0 <= k < before.len() && before[k] == p;
                            assert(out@[k] == p);
                        }
                    }
                }
            } else {
                proof {
                    assert forall|p: (i32, i32)|
                        in_stencil(reach as int, reach_sq as int, p) && offset_lt(p, (x, (y + 1) as i32)) implies #[trigger] out@.contains(p) by {
                        if p == (x, y) {
                            assert(p.0 * p.0 + p.1 * p.1 == xx * xx + yy * yy);
                        }
                    }
                }
            }
            y = y + 1;
        }
        proof {
            assert forall|p: (i32, i32)| in_stencil(reach as int, reach_sq as int, p) && p.0 < x + 1 implies #[trigger] out@.contains(p) by {
                if p.0 == x {
                    assert(offset_lt(p, (x, y)));
                }
            }
        }
        x = x + 1;
    }
    out
}

} // verus!
