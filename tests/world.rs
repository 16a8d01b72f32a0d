use engine::disease::DiseaseState;
use engine::maps::{MapElement, WorldMap, SIMPLE_GROCERIES};
use engine::shopper::{shopper_step, ShopperAction, ShopperState, ShopperView};
use engine::disease::Epidemic;
use engine::world::{
    assign_households, exhale_stencil, heads_of_households, path_step, validate_config, WorldError,
};

#[test]
fn config_checks() {
    assert_eq!(validate_config(5, 2, false, false), Ok(()));
    assert_eq!(validate_config(5, 5, true, true), Ok(()));
    assert_eq!(validate_config(5, 6, false, false), Err(WorldError::BadConfig));
    assert_eq!(validate_config(5, 1, true, false), Err(WorldError::BadConfig));
}

#[test]
fn initial_states_follow_the_infected_flags() {
    let epidemic = Epidemic::new(&vec![false, true, false, true], 1, 5);
    assert_eq!(epidemic.tick, 0);
    assert_eq!(
        epidemic.states,
        vec![
            DiseaseState::Susceptible,
            DiseaseState::Infectious(0),
            DiseaseState::Susceptible,
            DiseaseState::Infectious(0),
        ]
    );
}

#[test]
fn households_are_filled_in_order() {
    let homes = assign_households(7, 3, 3);
    assert_eq!(
        homes,
        vec![
            (0, true),
            (0, false),
            (0, false),
            (1, true),
            (1, false),
            (1, false),
            (2, true),
        ]
    );
    assert_eq!(assign_households(2, 1, 2), vec![(0, true), (1, true)]);
}

#[test]
fn stencil_of_radius_two() {
    let s = exhale_stencil(2, 4);
    assert_eq!(
        s,
        vec![
            (-1, -1),
            (-1, 0),
            (-1, 1),
            (0, -1),
            (0, 0),
            (0, 1),
            (1, -1),
            (1, 0),
            (1, 1),
        ]
    );
    assert_eq!(exhale_stencil(0, 0), vec![]);
    assert_eq!(exhale_stencil(4, 16).len(), 45);
    assert!(!exhale_stencil(4, 16).contains(&(-4, 0)));
}

#[test]
fn route_index_moves_three_on_roads() {
    let m = WorldMap::load_from_ascii_str(SIMPLE_GROCERIES, 10, 1).unwrap();
    let path = vec![(125, 65), (125, 55), (99, 295)];
    assert_eq!(m.get_element(125, 65), MapElement::Household);
    assert_eq!(path_step(&m, &path, 0), 1);
    assert_eq!(path_step(&m, &path, 1), 4);
    assert_eq!(path_step(&m, &path, 2), 5);
}

fn view(supplies_left: bool, is_head: bool, dual_shopper: bool) -> ShopperView {
    ShopperView {
        supplies_left,
        is_head,
        dual_shopper,
        shopping_period_ticks: 2,
        head_at_home: false,
        in_household_cell: false,
    }
}

#[test]
fn shopper_at_home() {
    let m = WorldMap::load_from_ascii_str(SIMPLE_GROCERIES, 10, 1).unwrap();
    let mut s = ShopperState::AtHome;
    assert_eq!(shopper_step(&m, &mut s, view(true, true, true)), ShopperAction::WanderAtHome);
    assert!(matches!(s, ShopperState::AtHome));
    assert_eq!(shopper_step(&m, &mut s, view(false, true, false)), ShopperAction::SetOffToStore);
    assert!(matches!(s, ShopperState::AtHome));
    assert_eq!(shopper_step(&m, &mut s, view(false, false, false)), ShopperAction::WanderAtHome);
    assert_eq!(shopper_step(&m, &mut s, view(false, false, true)), ShopperAction::Wait);
    assert!(matches!(s, ShopperState::FollowHeadOfHousehold));
}

#[test]
fn shopper_on_the_way_and_in_the_store() {
    let m = WorldMap::load_from_ascii_str(SIMPLE_GROCERIES, 10, 1).unwrap();
    let path = vec![(125, 65), (125, 55), (99, 295), (100, 295)];
    let mut s = ShopperState::GoingToStore { path_idx: 0, path };
    assert_eq!(shopper_step(&m, &mut s, view(false, true, false)), ShopperAction::MoveTo(125, 65));
    assert_eq!(shopper_step(&m, &mut s, view(false, true, false)), ShopperAction::MoveTo(125, 55));
    match &s {
        ShopperState::GoingToStore { path_idx, .. } => assert_eq!(*path_idx, 4),
        _ => panic!("still on the way"),
    }
    assert_eq!(shopper_step(&m, &mut s, view(false, true, false)), ShopperAction::EnterStore(100, 295));
    assert!(matches!(s, ShopperState::Shopping { shopping_duration_ticks: 0 }));
    assert_eq!(shopper_step(&m, &mut s, view(false, true, false)), ShopperAction::WanderInStore);
    assert_eq!(shopper_step(&m, &mut s, view(false, true, false)), ShopperAction::WanderInStore);
    assert_eq!(shopper_step(&m, &mut s, view(false, true, false)), ShopperAction::SetOffHome);
    assert!(matches!(s, ShopperState::Shopping { shopping_duration_ticks: 2 }));
}

#[test]
fn shopper_returns_and_followers_rejoin() {
    let m = WorldMap::load_from_ascii_str(SIMPLE_GROCERIES, 10, 1).unwrap();
    let mut s = ShopperState::ReturningHome { path_idx: 1, path: vec![(99, 295), (125, 65)] };
    assert_eq!(shopper_step(&m, &mut s, view(false, true, false)), ShopperAction::MoveTo(125, 65));
    assert_eq!(shopper_step(&m, &mut s, view(false, true, false)), ShopperAction::ArriveHome(125, 65));
    assert!(matches!(s, ShopperState::AtHome));

    let mut f = ShopperState::FollowHeadOfHousehold;
    let mut v = view(false, false, true);
    assert_eq!(shopper_step(&m, &mut f, v), ShopperAction::KeepUp);
    v.head_at_home = true;
    assert_eq!(shopper_step(&m, &mut f, v), ShopperAction::KeepUp);
    v.in_household_cell = true;
    assert_eq!(shopper_step(&m, &mut f, v), ShopperAction::Rejoin);
    assert!(matches!(f, ShopperState::AtHome));
}

#[test]
fn heads_are_found_per_household() {
    let homes = assign_households(7, 3, 4);
    assert_eq!(heads_of_households(&homes, 4), vec![0, 3, 6, 0]);
    assert_eq!(heads_of_households(&vec![(1, false), (1, true), (0, true)], 2), vec![2, 1]);
}
