//! The map: households, roads and stores read from an ASCII grid, and the
//! maps known by name.

use crate::cover::{boxes_of, grid_wf, within};
use crate::geometry::{scale_fits, scaled, BoundingBox};
use crate::text::{grid_of_text, grid_view, lemma_grid_of_text_shape};
use vstd::prelude::*;
use vstd::string::StringSliceAdditionalSpecFns;

verus! {

/// What one cell of a map holds.
#[derive(Debug, Clone, Copy, PartialEq, Eq, Structural)]
pub enum MapElement {
    Background,
    Household,
    Road,
    Store,
}

/// Why a map could not be loaded or a route could not be planned.
#[derive(Debug, Clone, Copy, PartialEq, Eq, Structural)]
pub enum MapError {
    /// A character other than `.`, `H`, `R`, `S`, an empty map, lines of
    /// different lengths, or a map too large to address once scaled.
    MalformedMap,
    /// The map name is not one the loader knows.
    UnknownMap,
    /// A building has no road next to it, or no road route joins two
    /// buildings.
    NoPath,
}

// ---------------------------------------------------------------------------
// The map
// ---------------------------------------------------------------------------

/// A household building and how many people live in it.
#[derive(Debug, Clone, Copy, PartialEq, Eq, Structural)]
pub struct Household {
    pub bounds: BoundingBox,
    pub num_people: u8,
}

/// A stretch of road.
#[derive(Debug, Clone, Copy, PartialEq, Eq, Structural)]
pub struct Road {
    pub bounds: BoundingBox,
}

/// A store.
#[derive(Debug, Clone, Copy, PartialEq, Eq, Structural)]
pub struct Store {
    pub bounds: BoundingBox,
}

/// A route already planned from a household to a store.
#[derive(Debug)]
pub struct CachedPath {
    pub household_idx: usize,
    pub store_idx: usize,
    pub path: Vec<(u16, u16)>,
}

/// A world of households, roads and stores read from an ASCII grid whose
/// cells are `scale_factor` world units wide, with the routes planned so
/// far.
#[derive(Debug)]
pub struct WorldMap {
    pub households: Vec<Household>,
    pub roads: Vec<Road>,
    pub stores: Vec<Store>,
    pub world_bb: BoundingBox,
    pub scale_factor: u8,
    /// The grid, bottom row first.
    pub elements: Vec<Vec<MapElement>>,
    pub path_cache: Vec<CachedPath>,
}

/// Every box of `boxes` multiplied by `factor`.
pub open spec fn scale_all(boxes: Seq<BoundingBox>, factor: int) -> Seq<BoundingBox> {
    boxes.map_values(|b: BoundingBox| scaled(b, factor))
}

/// The world box of a grid scaled by `factor`.
pub open spec fn world_of(g: Seq<Seq<MapElement>>, factor: int) -> BoundingBox {
    BoundingBox {
        bottom: 0,
        left: 0,
        top: (g.len() * factor) as usize,
        right: (g[0].len() * factor) as usize,
    }
}

/// Whether a grid scaled by `factor` can be addressed with `usize`.
pub open spec fn scale_fits_grid(g: Seq<Seq<MapElement>>, factor: int) -> bool {
    g.len() * factor <= usize::MAX && g[0].len() * factor <= usize::MAX
}

impl WorldMap {
    /// The grid, bottom row first.
    pub open spec fn grid(&self) -> Seq<Seq<MapElement>> {
        grid_view(self.elements@)
    }

    pub open spec fn household_bounds(&self) -> Seq<BoundingBox> {
        self.households@.map_values(|h: Household| h.bounds)
    }

    pub open spec fn road_bounds(&self) -> Seq<BoundingBox> {
        self.roads@.map_values(|r: Road| r.bounds)
    }

    pub open spec fn store_bounds(&self) -> Seq<BoundingBox> {
        self.stores@.map_values(|s: Store| s.bounds)
    }

    /// The grid is a non-empty rectangle, the world box is the scaled grid,
    /// and every building and road lies inside it.
    pub open spec fn wf(&self) -> bool {
        &&& grid_wf(self.grid())
        &&& scale_fits_grid(self.grid(), self.scale_factor as int)
        &&& self.world_bb == world_of(self.grid(), self.scale_factor as int)
        &&& forall|i: int|
            0 <= i < self.households@.len() ==> within(
                (#[trigger] self.households@[i]).bounds,
                self.world_bb.top as int,
                self.world_bb.right as int,
            )
        &&& forall|i: int|
            0 <= i < self.stores@.len() ==> within(
                (#[trigger] self.stores@[i]).bounds,
                self.world_bb.top as int,
                self.world_bb.right as int,
            )
        &&& forall|i: int|
            0 <= i < self.roads@.len() ==> within(
                (#[trigger] self.roads@[i]).bounds,
                self.world_bb.top as int,
                self.world_bb.right as int,
            )
    }

    /// The element at world position `(row, col)`.
    pub open spec fn element_at(&self, row: int, col: int) -> MapElement {
        self.grid()[row / (self.scale_factor as int)][col / (self.scale_factor as int)]
    }
}

proof fn lemma_scaled_within(bb: BoundingBox, rows: int, cols: int, f: int)
    requires
        within(bb, rows, cols),
        0 <= f,
        rows * f <= usize::MAX,
        cols * f <= usize::MAX,
    ensures
        scale_fits(bb, f),
        within(scaled(bb, f), rows * f, cols * f),
{
    assert(bb.bottom * f <= bb.top * f) by (nonlinear_arith)
        requires bb.bottom <= bb.top, 0 <= f;
    assert(bb.top * f <= rows * f) by (nonlinear_arith)
        requires bb.top <= rows, 0 <= f;
    assert(bb.left * f <= bb.right * f) by (nonlinear_arith)
        requires bb.left <= bb.right, 0 <= f;
    assert(bb.right * f <= cols * f) by (nonlinear_arith)
        requires bb.right <= cols, 0 <= f;
    assert(0 <= bb.bottom * f) by (nonlinear_arith)
        requires 0 <= f;
    assert(0 <= bb.left * f) by (nonlinear_arith)
        requires 0 <= f;
}

/// The boxes scaled by `factor`.
fn scale_boxes(boxes: &Vec<BoundingBox>, factor: u8, rows: usize, cols: usize) -> (r: Vec<BoundingBox>)
    requires
        forall|i: int| 0 <= i < boxes@.len() ==> within(#[trigger] boxes@[i], rows as int, cols as int),
        rows * factor <= usize::MAX,
        cols * factor <= usize::MAX,
    ensures
        r@ == scale_all(boxes@, factor as int),
        forall|i: int|
            0 <= i < r@.len() ==> within(#[trigger] r@[i], rows * factor, cols * factor),
{
    let mut out: Vec<BoundingBox> = Vec::new();
    let mut i: usize = 0;
    while i < boxes.len()
        invariant
            i <= boxes@.len(),
            forall|j: int| 0 <= j < boxes@.len() ==> within(#[trigger] boxes@[j], rows as int, cols as int),
            rows * factor <= usize::MAX,
            cols * factor <= usize::MAX,
            out@ =~= scale_all(boxes@.subrange(0, i as int), factor as int),
            forall|j: int| 0 <= j < out@.len() ==> within(#[trigger] out@[j], rows * factor, cols * factor),
        decreases boxes@.len() - i,
    {
        proof {
            lemma_scaled_within(boxes@[i as int], rows as int, cols as int, factor as int);
        }
        let b = boxes[i].scale(factor);
        out.push(b);
        i += 1;
    }
    assert(boxes@.subrange(0, i as int) =~= boxes@);
    out
}

impl WorldMap {
    /// Reads a map from its ASCII text: `.` background, `H` household, `R`
    /// road, `S` store, the first line being the top row. Each maximal
    /// rectangle of households, roads and stores becomes one, scaled by
    /// `scale_factor`; each household is home to `num_people_per_household`.
    pub fn load_from_ascii_str(s: &str, scale_factor: u8, num_people_per_household: u8) -> (r: Result<WorldMap, MapError>)
        ensures
            match r {
                Ok(m) => loaded_from(m, s.spec_bytes(), scale_factor, num_people_per_household),
                Err(e) => e == MapError::MalformedMap && load_fails(s.spec_bytes(), scale_factor),
            },
    {
        let elements = match WorldMap::load_lines(s) {
            Ok(e) => e,
            Err(e) => {
                return Err(e);
            },
        };
        let ghost g = grid_view(elements@);
        proof {
            lemma_grid_of_text_shape(s.spec_bytes());
        }
        let num_rows = elements.len();
        assert(g[0] == elements@[0]@);
        let num_cols = elements[0].len();
        assert(grid_wf(g));
        let top = match num_rows.checked_mul(scale_factor as usize) {
            Some(v) => v,
            None => {
                return Err(MapError::MalformedMap);
            },
        };
        let right = match num_cols.checked_mul(scale_factor as usize) {
            Some(v) => v,
            None => {
                return Err(MapError::MalformedMap);
            },
        };
        let household_boxes = scale_boxes(&WorldMap::get_bounding_boxes(&elements, MapElement::Household), scale_factor, num_rows, num_cols);
        let road_boxes = scale_boxes(&WorldMap::get_bounding_boxes(&elements, MapElement::Road), scale_factor, num_rows, num_cols);
        let store_boxes = scale_boxes(&WorldMap::get_bounding_boxes(&elements, MapElement::Store), scale_factor, num_rows, num_cols);
        let mut households: Vec<Household> = Vec::new();
        let mut i: usize = 0;
        while i < household_boxes.len()
            invariant
                i <= household_boxes@.len(),
                households@.len() == i,
                forall|j: int| 0 <= j < i ==> (#[trigger] households@[j]).bounds == household_boxes@[j],
                forall|j: int| 0 <= j < i ==> (#[trigger] households@[j]).num_people == num_people_per_household,
            decreases household_boxes@.len() - i,
        {
            households.push(Household { bounds: household_boxes[i], num_people: num_people_per_household });
            i += 1;
        }
        let mut roads: Vec<Road> = Vec::new();
        let mut i: usize = 0;
        while i < road_boxes.len()
            invariant
                i <= road_boxes@.len(),
                roads@.len() == i,
                forall|j: int| 0 <= j < i ==> (#[trigger] roads@[j]).bounds == road_boxes@[j],
            decreases road_boxes@.len() - i,
        {
            roads.push(Road { bounds: road_boxes[i] });
            i += 1;
        }
        let mut stores: Vec<Store> = Vec::new();
        let mut i: usize = 0;
        while i < store_boxes.len()
            invariant
                i <= store_boxes@.len(),
                stores@.len() == i,
                forall|j: int| 0 <= j < i ==> (#[trigger] stores@[j]).bounds == store_boxes@[j],
            decreases store_boxes@.len() - i,
        {
            stores.push(Store { bounds: store_boxes[i] });
            i += 1;
        }
        let m = WorldMap {
            households,
            roads,
            stores,
            world_bb: BoundingBox { bottom: 0, left: 0, top, right },
            scale_factor,
            elements,
            path_cache: Vec::new(),
        };
        assert(m.household_bounds() =~= household_boxes@);
        assert(m.road_bounds() =~= road_boxes@);
        assert(m.store_bounds() =~= store_boxes@);
        Ok(m)
    }

    /// The element at world position `(row, col)`.
    pub fn get_element(&self, row: usize, col: usize) -> (r: MapElement)
        requires
            self.wf(),
            self.scale_factor > 0,
            row < self.world_bb.top,
            col < self.world_bb.right,
        ensures
            r == self.element_at(row as int, col as int),
    {
        let f = self.scale_factor as usize;
        let ghost g = self.grid();
        let ghost nr = g.len();
        let ghost nc = g[0].len();
        assert(row / f < nr) by (nonlinear_arith)
            requires row < nr * f, f > 0;
        assert(col / f < nc) by (nonlinear_arith)
            requires col < nc * f, f > 0;
        assert(g[(row / f) as int] == self.elements@[(row / f) as int]@);
        self.elements[row / f][col / f]
    }
}


/// A cell inside a building paired with the road cell next to it.
pub type Intersection = ((u16, u16), (u16, u16));

impl WorldMap {
    /// For columns `c0..c1` whose cell in row `outside` is road, in order:
    /// the cell of row `inside` paired with that road cell.
    pub open spec fn row_hits(&self, inside: int, outside: int, c0: int, c1: int) -> Seq<Intersection>
        decreases c1 - c0,
    {
        if c1 <= c0 {
            Seq::empty()
        } else {
            let prev = self.row_hits(inside, outside, c0, c1 - 1);
            if self.element_at(outside, c1 - 1) == MapElement::Road {
                prev.push(((inside as u16, (c1 - 1) as u16), (outside as u16, (c1 - 1) as u16)))
            } else {
                prev
            }
        }
    }

    /// For rows `r0..r1` whose cell in column `outside` is road, in order:
    /// the cell of column `inside` paired with that road cell.
    pub open spec fn col_hits(&self, inside: int, outside: int, r0: int, r1: int) -> Seq<Intersection>
        decreases r1 - r0,
    {
        if r1 <= r0 {
            Seq::empty()
        } else {
            let prev = self.col_hits(inside, outside, r0, r1 - 1);
            if self.element_at(r1 - 1, outside) == MapElement::Road {
                prev.push((((r1 - 1) as u16, inside as u16), ((r1 - 1) as u16, outside as u16)))
            } else {
                prev
            }
        }
    }

    /// The road cells just outside `bb`, each with the cell inside `bb`
    /// next to it: along the bottom edge, the left edge, the top edge and
    /// the right edge, in that order.
    pub open spec fn intersections(&self, bb: BoundingBox) -> Seq<Intersection> {
        (if bb.bottom > self.world_bb.bottom {
            self.row_hits(bb.bottom as int, bb.bottom - 1, bb.left as int, bb.right as int)
        } else {
            Seq::empty()
        }) + (if bb.left > self.world_bb.left {
            self.col_hits(bb.left as int, bb.left - 1, bb.bottom as int, bb.top as int)
        } else {
            Seq::empty()
        }) + (if bb.top < self.world_bb.top {
            self.row_hits(bb.top - 1, bb.top as int, bb.left as int, bb.right as int)
        } else {
            Seq::empty()
        }) + (if bb.right < self.world_bb.right {
            self.col_hits(bb.right - 1, bb.right as int, bb.bottom as int, bb.top as int)
        } else {
            Seq::empty()
        })
    }

    fn push_row_hits(&self, out: &mut Vec<Intersection>, inside: usize, outside: usize, c0: usize, c1: usize)
        requires
            self.wf(),
            self.scale_factor > 0,
            outside < self.world_bb.top,
            c0 <= c1 <= self.world_bb.right,
        ensures
            final(out)@ == old(out)@ + self.row_hits(inside as int, outside as int, c0 as int, c1 as int),
    {
        let ghost start = out@;
        let mut c = c0;
        while c < c1
            invariant
                self.wf(),
                self.scale_factor > 0,
                outside < self.world_bb.top,
                c0 <= c <= c1 <= self.world_bb.right,
                out@ =~= start + self.row_hits(inside as int, outside as int, c0 as int, c as int),
            decreases c1 - c,
        {
            if self.get_element(outside, c) == MapElement::Road {
                out.push(((inside as u16, c as u16), (outside as u16, c as u16)));
            }
            c += 1;
        }
    }

    fn push_col_hits(&self, out: &mut Vec<Intersection>, inside: usize, outside: usize, r0: usize, r1: usize)
        requires
            self.wf(),
            self.scale_factor > 0,
            outside < self.world_bb.right,
            r0 <= r1 <= self.world_bb.top,
        ensures
            final(out)@ == old(out)@ + self.col_hits(inside as int, outside as int, r0 as int, r1 as int),
    {
        let ghost start = out@;
        let mut r = r0;
        while r < r1
            invariant
                self.wf(),
                self.scale_factor > 0,
                outside < self.world_bb.right,
                r0 <= r <= r1 <= self.world_bb.top,
                out@ =~= start + self.col_hits(inside as int, outside as int, r0 as int, r as int),
            decreases r1 - r,
        {
            if self.get_element(r, outside) == MapElement::Road {
                out.push(((r as u16, inside as u16), (r as u16, outside as u16)));
            }
            r += 1;
        }
    }

    /// The road cells just outside `bb`, each paired with the cell inside
    /// `bb` next to it.
    pub fn find_bb_road_intersection(&self, bb: &BoundingBox) -> (r: Vec<Intersection>)
        requires
            self.wf(),
            self.scale_factor > 0,
            within(*bb, self.world_bb.top as int, self.world_bb.right as int),
            bb.bottom < bb.top,
            bb.left < bb.right,
        ensures
            r@ == self.intersections(*bb),
    {
        let mut out: Vec<Intersection> = Vec::new();
        if bb.bottom > self.world_bb.bottom {
            self.push_row_hits(&mut out, bb.bottom, bb.bottom - 1, bb.left, bb.right);
        }
        if bb.left > self.world_bb.left {
            self.push_col_hits(&mut out, bb.left, bb.left - 1, bb.bottom, bb.top);
        }
        if bb.top < self.world_bb.top {
            self.push_row_hits(&mut out, bb.top - 1, bb.top, bb.left, bb.right);
        }
        if bb.right < self.world_bb.right {
            self.push_col_hits(&mut out, bb.right - 1, bb.right, bb.bottom, bb.top);
        }
        assert(out@ =~= self.intersections(*bb));
        out
    }
}



// ---------------------------------------------------------------------------
// Maps known by name
// ---------------------------------------------------------------------------

/// The name of the built-in neighbourhood map.
pub const SIMPLE_GROCERIES_NAME: &'static str = "simple_groceries";

/// A neighbourhood of 54 households around one grocery store, joined by a
/// ring of roads; the first line is the top row.
pub const SIMPLE_GROCERIES: &'static str = "........R...R...R...R.......................................\n\
.....HHHRHHHRHHHRHHHRHHH.HHH.HHH.HHH.HHH.HHH.HHH.HHH.HHH....\n\
.....HHHRHHHRHHHRHHHRHHH.HHH.HHH.HHH.HHH.HHH.HHH.HHH.HHH....\n\
.....HHHRHHHRHHHRHHHRHHH.HHH.HHH.HHH.HHH.HHH.HHH.HHH.HHH....\n\
RRRRRRRRRRRRRRRRRRRRRRRRRRRRRRRRRRRRRRRRRRRRRRRRRRRRRRRRRRRR\n\
....R..................................................R....\n\
....R.HHH..........................................HHH.R....\n\
HHH.RRHHH..........................................HHHRR.HHH\n\
HHHRR.HHH..........................................HHH.RRHHH\n\
HHH.R..................................................R.HHH\n\
....R.HHH.SSSSSSSSSSSSSSSSSSSSSSSSSSSSSSSSSSSSSSSS.HHH.R....\n\
HHH.RRHHH.SSSSSSSSSSSSSSSSSSSSSSSSSSSSSSSSSSSSSSSS.HHHRR.HHH\n\
HHHRR.HHH.SSSSSSSSSSSSSSSSSSSSSSSSSSSSSSSSSSSSSSSS.HHH.RRHHH\n\
HHH.R.....SSSSSSSSSSSSSSSSSSSSSSSSSSSSSSSSSSSSSSSS.....R.HHH\n\
....R.HHH.SSSSSSSSSSSSSSSSSSSSSSSSSSSSSSSSSSSSSSSS.HHH.R....\n\
HHH.RRHHH.SSSSSSSSSSSSSSSSSSSSSSSSSSSSSSSSSSSSSSSS.HHHRR.HHH\n\
HHHRR.HHH.SSSSSSSSSSSSSSSSSSSSSSSSSSSSSSSSSSSSSSSS.HHH.RRHHH\n\
HHH.R.....SSSSSSSSSSSSSSSSSSSSSSSSSSSSSSSSSSSSSSSS.....R.HHH\n\
....R.HHH.SSSSSSSSSSSSSSSSSSSSSSSSSSSSSSSSSSSSSSSS.HHH.R....\n\
HHH.RRHHH.SSSSSSSSSSSSSSSSSSSSSSSSSSSSSSSSSSSSSSSS.HHHRR.HHH\n\
HHHRR.HHH.SSSSSSSSSSSSSSSSSSSSSSSSSSSSSSSSSSSSSSSS.HHH.RRHHH\n\
HHH.R.....SSSSSSSSSSSSSSSSSSSSSSSSSSSSSSSSSSSSSSSS.....R.HHH\n\
....R.HHH.SSSSSSSSSSSSSSSSSSSSSSSSSSSSSSSSSSSSSSSS.HHH.R....\n\
HHH.RRHHH.SSSSSSSSSSSSSSSSSSSSSSSSSSSSSSSSSSSSSSSS.HHHRR.HHH\n\
HHHRR.HHH.SSSSSSSSSSSSSSSSSSSSSSSSSSSSSSSSSSSSSSSS.HHH.RRHHH\n\
HHH.R.....SSSSSSSSSSSSSSSSSSSSSSSSSSSSSSSSSSSSSSSS.....R.HHH\n\
....R.HHH.SSSSSSSSSSSSSSSSSSSSSSSSSSSSSSSSSSSSSSSS.HHH.R....\n\
HHH.RRHHH.SSSSSSSSSSSSSSSSSSSSSSSSSSSSSSSSSSSSSSSS.HHHRR.HHH\n\
HHHRR.HHH.SSSSSSSSSSSSSSSSSSSSSSSSSSSSSSSSSSSSSSSS.HHH.RRHHH\n\
HHH.R.....SSSSSSSSSSSSSSSSSSSSSSSSSSSSSSSSSSSSSSSS.....R.HHH\n\
....R.HHH....................RR....................HHH.R....\n\
HHH.RRHHH....................RR....................HHHRR.HHH\n\
HHHRR.HHH....................RR....................HHH.RRHHH\n\
HHH.R........................RR........................R.HHH\n\
RRRRRRRRRRRRRRRRRRRRRRRRRRRRRRRRRRRRRRRRRRRRRRRRRRRRRRRRRRRR\n\
.....HHH.HHH.HHH.HHH.HHH.HHH.HHH.HHH.HHH.HHH.HHH.HHH.HHH....\n\
.....HHH.HHH.HHH.HHH.HHH.HHH.HHH.HHH.HHH.HHH.HHH.HHH.HHH....\n\
.....HHH.HHH.HHH.HHH.HHH.HHH.HHH.HHH.HHH.HHH.HHH.HHH.HHH....\n\
............................................................\n\
............................................................";

/// Which map to load, at what scale, with how many people per household.
#[derive(Debug)]
pub struct MapParams {
    pub name: String,
    pub scale: u8,
    pub num_people_per_household: u8,
}

/// What loading `text` at `scale` with `n` people per household gives,
/// when it succeeds.
pub open spec fn loaded_from(m: WorldMap, text: Seq<u8>, scale: u8, n: u8) -> bool {
    &&& grid_of_text(text) == Some(m.grid())
    &&& m.wf()
    &&& m.scale_factor == scale
    &&& m.household_bounds() == scale_all(boxes_of(m.grid(), MapElement::Household), scale as int)
    &&& m.road_bounds() == scale_all(boxes_of(m.grid(), MapElement::Road), scale as int)
    &&& m.store_bounds() == scale_all(boxes_of(m.grid(), MapElement::Store), scale as int)
    &&& forall|i: int| 0 <= i < m.households@.len() ==> (#[trigger] m.households@[i]).num_people == n
    &&& m.path_cache@.len() == 0
    &&& m.cache_wf()
}

/// Whether `text` at `scale` is no loadable map.
pub open spec fn load_fails(text: Seq<u8>, scale: u8) -> bool {
    match grid_of_text(text) {
        Some(g) => !scale_fits_grid(g, scale as int),
        None => true,
    }
}

/// Loads the map that `params` names.
pub fn load(params: &MapParams) -> (r: Result<WorldMap, MapError>)
    ensures
        params.name@ != SIMPLE_GROCERIES_NAME@ ==> r == Err::<WorldMap, MapError>(MapError::UnknownMap),
        params.name@ == SIMPLE_GROCERIES_NAME@ ==> match r {
            Ok(m) => loaded_from(m, SIMPLE_GROCERIES.spec_bytes(), params.scale, params.num_people_per_household),
            Err(e) => e == MapError::MalformedMap && load_fails(SIMPLE_GROCERIES.spec_bytes(), params.scale),
        },
{
    let known = SIMPLE_GROCERIES_NAME.to_owned();
    if params.name == known {
        WorldMap::load_from_ascii_str(SIMPLE_GROCERIES, params.scale, params.num_people_per_household)
    } else {
        Err(MapError::UnknownMap)
    }
}

/// Loading the same text at the same scale twice gives the same grid and
/// the same household, road and store boxes, in the same order.
pub proof fn lemma_load_deterministic(m1: WorldMap, m2: WorldMap, text: Seq<u8>, scale: u8, n: u8)
    requires
        loaded_from(m1, text, scale, n),
        loaded_from(m2, text, scale, n),
    ensures
        m1.grid() == m2.grid(),
        m1.world_bb == m2.world_bb,
        m1.household_bounds() == m2.household_bounds(),
        m1.road_bounds() == m2.road_bounds(),
        m1.store_bounds() == m2.store_bounds(),
{
}


} // verus!
