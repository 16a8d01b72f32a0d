use crate::maps::{MapElement, WorldMap};
use crate::world::path_step;
use vstd::prelude::*;

verus! {

/// What a shopper is doing. The heading of those who wander, and the supply
/// level of each household, are kept beside this state.
#[derive(Debug)]
pub enum ShopperState {
    AtHome,
    GoingToStore { path_idx: usize, path: Vec<(u16, u16)> },
    Shopping { shopping_duration_ticks: usize },
    ReturningHome { path_idx: usize, path: Vec<(u16, u16)> },
    FollowHeadOfHousehold,
}

/// What the caller is to do for a shopper this tick.
#[derive(Debug, Clone, Copy, PartialEq, Eq, Structural)]
pub enum ShopperAction {
    /// Move about inside the household.
    WanderAtHome,
    /// Plan the route to the store and set off along it.
    SetOffToStore,
    /// Stand on this cell of the route.
    MoveTo(u16, u16),
    /// Stand on this last cell of the route, inside the store, and pick a
    /// new heading.
    EnterStore(u16, u16),
    /// Move about inside the store.
    WanderInStore,
    /// Plan the route home and set off along it.
    SetOffHome,
    /// Stand on this last cell of the route, at home, restock the household
    /// and pick a new heading.
    ArriveHome(u16, u16),
    /// Pick a new heading: the shopper followed the head back home.
    Rejoin,
    /// Stay close to the head of the household.
    KeepUp,
    /// Nothing to do.
    Wait,
}

/// What the caller knows of a shopper's surroundings this tick.
#[derive(Debug, Clone, Copy, PartialEq, Eq, Structural)]
pub struct ShopperView {
    /// The household still has supplies.
    pub supplies_left: bool,
    pub is_head: bool,
    /// Members of the household follow the head to the store.
    pub dual_shopper: bool,
    pub shopping_period_ticks: usize,
    /// The head of the household is at home.
    pub head_at_home: bool,
    /// The shopper stands on a household cell.
    pub in_household_cell: bool,
}

impl ShopperState {
    /// A route state that can be followed on `map`: a non-empty route of
    /// cells of the world, with an index at most two past its end.
    pub open spec fn wf(&self, map: &WorldMap) -> bool {
        match self {
            ShopperState::GoingToStore { path_idx, path } => route_wf(map, *path_idx, path@),
            ShopperState::ReturningHome { path_idx, path } => route_wf(map, *path_idx, path@),
            _ => true,
        }
    }
}

/// A non-empty route of cells of the world, with an index at most two past
/// its end.
pub open spec fn route_wf(map: &WorldMap, idx: usize, path: Seq<(u16, u16)>) -> bool {
    &&& path.len() >= 1
    &&& idx <= path.len() + 2
    &&& path.len() + 5 <= usize::MAX
    &&& forall|k: int|
        0 <= k < path.len() ==> (#[trigger] path[k]).0 < map.world_bb.top && path[k].1
            < map.world_bb.right
}

/// The index after `idx` on a route: three on along roads, one inside
/// buildings.
pub open spec fn next_index(map: &WorldMap, path: Seq<(u16, u16)>, idx: int) -> int {
    idx + if map.element_at(path[idx].0 as int, path[idx].1 as int) == MapElement::Road {
        3int
    } else {
        1int
    }
}

/// One tick of a shopper's plan, as the transition table has it:
///   * at home with supplies left, wander; out of supplies, the head sets
///     off to the store, members of a dual-shopper household follow the
///     head, other members wander;
///   * on a route, stand on the cell at the index and move the index on, or
///     past its end enter the store (going) or arrive home (returning);
///   * shopping, wander in the store until the shopping period is over,
///     then set off home;
///   * following, rejoin the household once the head is home and the
///     shopper stands on a household cell, else keep up with the head.
/// The new states that need a route or a heading are left to the caller:
/// `SetOffToStore`, `SetOffHome` leave the state as it was.
pub fn shopper_step(map: &WorldMap, state: &mut ShopperState, view: ShopperView) -> (r: ShopperAction)
    requires
        map.wf(),
        map.scale_factor > 0,
        old(state).wf(map),
    ensures
        final(state).wf(map),
        match *old(state) {
            ShopperState::AtHome => if view.supplies_left {
                r == ShopperAction::WanderAtHome && *final(state) is AtHome
            } else if view.is_head {
                r == ShopperAction::SetOffToStore && *final(state) is AtHome
            } else if view.dual_shopper {
                r == ShopperAction::Wait && *final(state) is FollowHeadOfHousehold
            } else {
                r == ShopperAction::WanderAtHome && *final(state) is AtHome
            },
            ShopperState::GoingToStore { path_idx, path } => if path_idx < path@.len() {
                &&& r == ShopperAction::MoveTo(path@[path_idx as int].0, path@[path_idx as int].1)
                &&& *final(state) matches ShopperState::GoingToStore { path_idx: i, path: p }
                    && p@ == path@ && i == next_index(map, path@, path_idx as int)
            } else {
                &&& r == ShopperAction::EnterStore(path@.last().0, path@.last().1)
                &&& *final(state) matches ShopperState::Shopping { shopping_duration_ticks: e } && e == 0
            },
            ShopperState::Shopping { shopping_duration_ticks } => if shopping_duration_ticks
                < view.shopping_period_ticks {
                &&& r == ShopperAction::WanderInStore
                &&& *final(state) matches ShopperState::Shopping { shopping_duration_ticks: e }
                    && e == shopping_duration_ticks + 1
            } else {
                &&& r == ShopperAction::SetOffHome
                &&& *final(state) matches ShopperState::Shopping { shopping_duration_ticks: e }
                    && e == shopping_duration_ticks
            },
            ShopperState::ReturningHome { path_idx, path } => if path_idx < path@.len() {
                &&& r == ShopperAction::MoveTo(path@[path_idx as int].0, path@[path_idx as int].1)
                &&& *final(state) matches ShopperState::ReturningHome { path_idx: i, path: p }
                    && p@ == path@ && i == next_index(map, path@, path_idx as int)
            } else {
                r == ShopperAction::ArriveHome(path@.last().0, path@.last().1) && *final(state) is AtHome
            },
            ShopperState::FollowHeadOfHousehold => if view.head_at_home && view.in_household_cell {
                r == ShopperAction::Rejoin && *final(state) is AtHome
            } else {
                r == ShopperAction::KeepUp && *final(state) is FollowHeadOfHousehold
            },
        },
{
    match state {
        ShopperState::AtHome => {
            if view.supplies_left {
                ShopperAction::WanderAtHome
            } else if view.is_head {
                ShopperAction::SetOffToStore
            } else if view.dual_shopper {
                *state = ShopperState::FollowHeadOfHousehold;
                ShopperAction::Wait
            } else {
                ShopperAction::WanderAtHome
            }
        },
        ShopperState::GoingToStore { path_idx, path } => {
            if *path_idx < path.len() {
                let cell = path[*path_idx];
                let next = path_step(map, path, *path_idx);
                *path_idx = next;
                ShopperAction::MoveTo(cell.0, cell.1)
            } else {
                let cell = path[path.len() - 1];
                *state = ShopperState::Shopping { shopping_duration_ticks: 0 };
                ShopperAction::EnterStore(cell.0, cell.1)
            }
        },
        ShopperState::Shopping { shopping_duration_ticks } => {
            if *shopping_duration_ticks < view.shopping_period_ticks {
                *shopping_duration_ticks = *shopping_duration_ticks + 1;
                ShopperAction::WanderInStore
            } else {
                ShopperAction::SetOffHome
            }
        },
        ShopperState::ReturningHome { path_idx, path } => {
            if *path_idx < path.len() {
                let cell = path[*path_idx];
                let next = path_step(map, path, *path_idx);
                *path_idx = next;
                ShopperAction::MoveTo(cell.0, cell.1)
            } else {
                let cell = path[path.len() - 1];
                *state = ShopperState::AtHome;
                ShopperAction::ArriveHome(cell.0, cell.1)
            }
        },
        ShopperState::FollowHeadOfHousehold => {
            if view.head_at_home && view.in_household_cell {
                *state = ShopperState::AtHome;
                ShopperAction::Rejoin
            } else {
                ShopperAction::KeepUp
            }
        },
    }
}

} // verus!
