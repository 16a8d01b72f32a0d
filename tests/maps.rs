use engine::geometry::BoundingBox;
use engine::maps::{load, MapElement, MapError, MapParams, WorldMap, SIMPLE_GROCERIES};
use engine::routes::{assemble_path, floor_distance, floor_sqrt, reverse_path};
use rand::{RngCore, SeedableRng};
use rand_chacha::ChaCha8Rng;

#[test]
fn test_find_bb_road_intersection() {
    let sg_map = WorldMap::load_from_ascii_str(SIMPLE_GROCERIES, 10, 1).unwrap();
    let store = &sg_map.stores[0];

    let intersections = sg_map.find_bb_road_intersection(&store.bounds);
    assert_eq!(
        intersections,
        (290..310)
            .map(|col| ((100, col), (99, col),))
            .collect::<Vec<_>>()
    );

    let box_with_left_intersection = BoundingBox {
        bottom: 110,
        left: 60,
        top: 140,
        right: 90,
    };
    let intersections = sg_map.find_bb_road_intersection(&box_with_left_intersection);
    assert_eq!(
        intersections,
        (120..130)
            .map(|row| ((row, 60), (row, 59)))
            .collect::<Vec<_>>()
    );
}

#[test]
fn mod_test_load_simple_groceries() {
    let sg_map = WorldMap::load_from_ascii_str(SIMPLE_GROCERIES, 1, 1).unwrap();

    let mut household_bounds = sg_map
        .households
        .iter()
        .map(|household| household.bounds)
        .collect::<Vec<_>>();
    household_bounds.sort();
    assert_eq!(household_bounds.len(), 54);
    assert!(household_bounds.iter().all(|bb| bb.size() == 9));

    assert_eq!(sg_map.roads.len(), 37);

    let store_bounds = sg_map
        .stores
        .iter()
        .map(|store| store.bounds)
        .collect::<Vec<_>>();
    assert_eq!(
        store_bounds,
        vec![BoundingBox {
            bottom: 10,
            left: 10,
            top: 30,
            right: 50,
        }]
    );
}

#[test]
fn household_nineteen_of_simple_groceries() {
    let sg_map = WorldMap::load_from_ascii_str(SIMPLE_GROCERIES, 10, 1).unwrap();
    assert_eq!(
        sg_map.households[19].bounds,
        BoundingBox {
            bottom: 110,
            left: 60,
            top: 140,
            right: 90,
        }
    );
    assert_eq!(
        sg_map.world_bb,
        BoundingBox {
            bottom: 0,
            left: 0,
            top: 400,
            right: 600,
        }
    );
}

#[test]
fn loading_twice_gives_the_same_boxes() {
    let a = WorldMap::load_from_ascii_str(SIMPLE_GROCERIES, 3, 2).unwrap();
    let b = WorldMap::load_from_ascii_str(SIMPLE_GROCERIES, 3, 2).unwrap();
    assert_eq!(a.households, b.households);
    assert_eq!(a.roads, b.roads);
    assert_eq!(a.stores, b.stores);
}

#[test]
fn boxes_come_out_sorted_and_maximal() {
    // Rows are stored bottom first: the last text line is row 0.
    let grid = WorldMap::load_lines("HH.H\nHH.H\n..RR").unwrap();
    assert_eq!(grid[0], vec![MapElement::Background, MapElement::Background, MapElement::Road, MapElement::Road]);
    let houses = WorldMap::get_bounding_boxes(&grid, MapElement::Household);
    assert_eq!(
        houses,
        vec![
            BoundingBox { bottom: 1, left: 0, top: 3, right: 2 },
            BoundingBox { bottom: 1, left: 3, top: 3, right: 4 },
        ]
    );
    let roads = WorldMap::get_bounding_boxes(&grid, MapElement::Road);
    assert_eq!(roads, vec![BoundingBox { bottom: 0, left: 2, top: 1, right: 4 }]);
}

#[test]
fn trims_and_accepts_crlf() {
    let grid = WorldMap::load_lines("  \n H.\r\nRS\n\n").unwrap();
    assert_eq!(grid.len(), 2);
    assert_eq!(grid[0], vec![MapElement::Road, MapElement::Store]);
    assert_eq!(grid[1], vec![MapElement::Household, MapElement::Background]);
}

#[test]
fn malformed_maps_are_refused() {
    assert_eq!(WorldMap::load_lines("H.X").unwrap_err(), MapError::MalformedMap);
    assert_eq!(WorldMap::load_lines("   \n ").unwrap_err(), MapError::MalformedMap);
    assert_eq!(WorldMap::load_lines("HH\nH").unwrap_err(), MapError::MalformedMap);
    assert_eq!(WorldMap::load_lines("HH\n\nHH").unwrap_err(), MapError::MalformedMap);
    assert_eq!(
        WorldMap::load_from_ascii_str("H H", 1, 1).unwrap_err(),
        MapError::MalformedMap
    );
}

#[test]
fn unknown_map_names_are_refused() {
    let params = MapParams {
        name: "downtown".to_string(),
        scale: 1,
        num_people_per_household: 2,
    };
    assert_eq!(load(&params).unwrap_err(), MapError::UnknownMap);
}

#[test]
fn the_built_in_map_loads_by_name() {
    let params = MapParams {
        name: "simple_groceries".to_string(),
        scale: 2,
        num_people_per_household: 3,
    };
    let m = load(&params).unwrap();
    assert_eq!(m.households.len(), 54);
    assert!(m.households.iter().all(|h| h.num_people == 3));
    assert_eq!(m.scale_factor, 2);
}

#[test]
fn get_element_divides_by_scale() {
    let m = WorldMap::load_from_ascii_str(SIMPLE_GROCERIES, 10, 1).unwrap();
    assert_eq!(m.get_element(99, 295), MapElement::Road);
    assert_eq!(m.get_element(100, 295), MapElement::Store);
    assert_eq!(m.get_element(125, 65), MapElement::Household);
    assert_eq!(m.get_element(125, 55), MapElement::Road);
    assert_eq!(m.get_element(0, 0), MapElement::Background);
}

#[test]
fn floor_sqrt_rounds_down() {
    assert_eq!(floor_sqrt(0), 0);
    assert_eq!(floor_sqrt(15), 3);
    assert_eq!(floor_sqrt(16), 4);
    assert_eq!(floor_sqrt(u64::MAX), 4294967295);
    assert_eq!(floor_distance((0, 0), (3, 4)), 5);
    assert_eq!(floor_distance((10, 10), (9, 8)), 2);
}

#[test]
fn route_joins_household_to_store_over_roads() {
    let mut rng = ChaCha8Rng::seed_from_u64(10914);
    let mut m = WorldMap::load_from_ascii_str(SIMPLE_GROCERIES, 10, 1).unwrap();
    let path = m.get_household_to_store_path(19, 0, &mut rng).unwrap();
    let first = path[0];
    let last = path[path.len() - 1];
    assert_eq!(m.get_element(first.0 as usize, first.1 as usize), MapElement::Household);
    assert_eq!(m.get_element(last.0 as usize, last.1 as usize), MapElement::Store);
    for pos in path[1..path.len() - 1].iter() {
        assert_eq!(m.get_element(pos.0 as usize, pos.1 as usize), MapElement::Road);
    }
    for w in path.windows(2) {
        let d_row = (w[1].0 as i32 - w[0].0 as i32).abs();
        let d_col = (w[1].1 as i32 - w[0].1 as i32).abs();
        assert_eq!(d_row + d_col, 1);
    }
    // A second request is answered from the cache.
    let again = m.get_household_to_store_path(19, 0, &mut rng).unwrap();
    assert_eq!(again, path);
    assert_eq!(m.path_cache.len(), 1);
    // The way back is the same route reversed.
    let back = m.get_store_to_household_path(0, 19, &mut rng).unwrap();
    let mut reversed = path.clone();
    reversed.reverse();
    assert_eq!(back, reversed);
}

#[test]
fn household_without_road_has_no_route() {
    let text = "HH.RS\n...RS";
    let mut m = WorldMap::load_from_ascii_str(text, 1, 1).unwrap();
    let mut rng = ChaCha8Rng::seed_from_u64(1);
    assert_eq!(
        m.get_household_to_store_path(0, 0, &mut rng).unwrap_err(),
        MapError::NoPath
    );
    assert!(m.path_cache.is_empty());
}

#[test]
fn disconnected_roads_have_no_route() {
    let text = "HR.RS";
    let mut m = WorldMap::load_from_ascii_str(text, 1, 1).unwrap();
    let mut rng = ChaCha8Rng::seed_from_u64(1);
    assert_eq!(
        m.get_household_to_store_path(0, 0, &mut rng).unwrap_err(),
        MapError::NoPath
    );
}

#[test]
fn shortest_route_on_a_small_map() {
    let text = "HRRRS";
    let mut m = WorldMap::load_from_ascii_str(text, 1, 1).unwrap();
    let mut rng = ChaCha8Rng::seed_from_u64(1);
    let path = m.get_household_to_store_path(0, 0, &mut rng).unwrap();
    assert_eq!(path, vec![(0, 0), (0, 1), (0, 2), (0, 3), (0, 4)]);
}

#[test]
fn paths_are_joined_and_reversed() {
    let road = vec![(1, 1), (1, 2)];
    assert_eq!(assemble_path((0, 1), &road, (2, 2)), vec![(0, 1), (1, 1), (1, 2), (2, 2)]);
    assert_eq!(reverse_path(&road), vec![(1, 2), (1, 1)]);
}

#[test]
fn cached_route_draws_nothing() {
    let mut rng = ChaCha8Rng::seed_from_u64(10914);
    let mut m = WorldMap::load_from_ascii_str(SIMPLE_GROCERIES, 10, 1).unwrap();
    let first = m.get_household_to_store_path(3, 0, &mut rng).unwrap();
    let mut untouched = rng.clone();
    let again = m.get_household_to_store_path(3, 0, &mut rng).unwrap();
    assert_eq!(again, first);
    let back = m.get_store_to_household_path(0, 3, &mut rng).unwrap();
    assert_eq!(back.len(), first.len());
    assert_eq!(rng.next_u64(), untouched.next_u64());
}
