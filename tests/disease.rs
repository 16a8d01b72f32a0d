use engine::city::{make_schedule, DiseaseStatus};
use engine::disease::{
    advance_disease_state, advance_disease_states, expose_people, outbreak_over,
    spread_infection_radius, tally, DiseaseState, Epidemic,
};
use engine::utils::{random_bool_vec, random_vec};
use engine::types::Mask;
use rand::SeedableRng;
use rand_chacha::ChaCha8Rng;

use DiseaseState::{Exposed, Infectious, Recovered, Susceptible};

#[test]
fn exposed_becomes_infectious_after_the_period() {
    assert_eq!(advance_disease_state(Exposed(3), 4, 2, 5), Exposed(3));
    assert_eq!(advance_disease_state(Exposed(3), 5, 2, 5), Infectious(5));
    assert_eq!(advance_disease_state(Infectious(1), 5, 2, 5), Infectious(1));
    assert_eq!(advance_disease_state(Infectious(1), 6, 2, 5), Recovered);
    assert_eq!(advance_disease_state(Susceptible, 6, 0, 0), Susceptible);
    assert_eq!(advance_disease_state(Recovered, 6, 0, 0), Recovered);
}

#[test]
fn zero_exposed_period_lasts_one_tick() {
    assert_eq!(advance_disease_state(Exposed(7), 8, 0, 5), Infectious(8));
}

#[test]
fn contact_with_infectious_exposes_susceptible() {
    let mut states = vec![Susceptible, Susceptible, Susceptible, Infectious(0), Infectious(0)];
    spread_infection_radius(&mut states, 1, &vec![(0, 1), (2, 3), (1, 2)]);
    assert_eq!(states, vec![Susceptible, Susceptible, Exposed(1), Infectious(0), Infectious(0)]);
    spread_infection_radius(&mut states, 2, &vec![(1, 2), (1, 4)]);
    assert_eq!(states, vec![Susceptible, Exposed(2), Exposed(1), Infectious(0), Infectious(0)]);
}

#[test]
fn radius_scenario_with_no_exposed_period() {
    // Everyone within reach of each other; exposure turns infectious at once.
    let mut states = vec![Susceptible, Susceptible, Susceptible, Infectious(0), Infectious(0)];
    let all_pairs = vec![(2, 3)];
    spread_infection_radius(&mut states, 1, &all_pairs);
    advance_disease_states(&mut states, 1, 0, 5);
    assert_eq!(states, vec![Susceptible, Susceptible, Infectious(1), Infectious(0), Infectious(0)]);
    for tick in 2..5 {
        advance_disease_states(&mut states, tick, 0, 5);
    }
    advance_disease_states(&mut states, 5, 0, 5);
    assert_eq!(states, vec![Susceptible, Susceptible, Infectious(1), Recovered, Recovered]);
    advance_disease_states(&mut states, 6, 0, 5);
    assert_eq!(states[2], Recovered);
}

#[test]
fn listed_susceptible_people_are_exposed() {
    let mut states = vec![Susceptible, Recovered, Infectious(2), Susceptible];
    expose_people(&mut states, 4, &vec![1, 2, 3, 3]);
    assert_eq!(states, vec![Susceptible, Recovered, Infectious(2), Exposed(4)]);
}

#[test]
fn infectious_predicate() {
    assert!(Infectious(3).is_infectious());
    assert!(!Exposed(3).is_infectious());
    assert!(DiseaseStatus::InfSym.is_infectious());
    assert!(DiseaseStatus::InfPreSym.is_infectious());
    assert!(!DiseaseStatus::Latent.is_infectious());
    assert!(!DiseaseStatus::Recovered.is_infectious());
}

#[test]
fn schedule_spends_working_hours_away() {
    let s = make_schedule(4, Some(9));
    for h in 0..24 {
        let expected = if (9..17).contains(&h) { 9 } else { 4 };
        assert_eq!(s[h], expected);
    }
    assert_eq!(make_schedule(2, None), [2; 24]);
}

#[test]
fn test_random_bool_vec() {
    let mut rng = ChaCha8Rng::seed_from_u64(10914);

    assert_eq!(random_bool_vec(0, 0, &mut rng), vec![false; 0]);
    assert_eq!(random_bool_vec(0, 0, &mut rng), vec![false; 0]);

    assert_eq!(random_bool_vec(1, 0, &mut rng), vec![false]);
    assert_eq!(random_bool_vec(1, 1, &mut rng), vec![true]);

    assert_eq!(random_bool_vec(2, 0, &mut rng), vec![false, false]);
    assert_eq!(random_bool_vec(2, 1, &mut rng), vec![true, false]);
    assert_eq!(random_bool_vec(2, 2, &mut rng), vec![true, true]);

    assert_eq!(
        random_bool_vec(5, 0, &mut rng),
        vec![false, false, false, false, false]
    );
    assert_eq!(
        random_bool_vec(5, 3, &mut rng),
        vec![false, true, false, true, true]
    );
    assert_eq!(
        random_bool_vec(5, 5, &mut rng),
        vec![true, true, true, true, true]
    );
}

#[test]
fn random_vec_keeps_the_counts() {
    let mut rng = ChaCha8Rng::seed_from_u64(3);
    let v = random_vec(20, Mask::Regular, 7, Mask::N95, 4, Mask::NoMask, &mut rng);
    assert_eq!(v.len(), 20);
    assert_eq!(v.iter().filter(|m| **m == Mask::Regular).count(), 7);
    assert_eq!(v.iter().filter(|m| **m == Mask::N95).count(), 4);
    assert_eq!(v.iter().filter(|m| **m == Mask::NoMask).count(), 9);
    let b = random_bool_vec(10, 6, &mut rng);
    assert_eq!(b.iter().filter(|x| **x).count(), 6);
}

#[test]
fn tallies_every_state() {
    let states = vec![Susceptible, Exposed(1), Infectious(2), Recovered, Susceptible, Recovered];
    assert_eq!(tally(&states), (2, 1, 1, 2));
    assert_eq!(tally(&vec![]), (0, 0, 0, 0));
}

#[test]
fn outbreak_ends_without_exposed_or_infectious() {
    assert!(outbreak_over(&vec![Susceptible, Recovered]));
    assert!(outbreak_over(&vec![]));
    assert!(!outbreak_over(&vec![Susceptible, Exposed(3)]));
    assert!(!outbreak_over(&vec![Infectious(3), Recovered]));
}

#[test]
fn radius_timeline_given_contacts() {
    let mut e = Epidemic::new(&vec![false, false, false, true, true], 0, 5);
    assert_eq!(e.step_with_contacts(&vec![(2, 3)]), 1);
    assert_eq!(e.states, vec![Susceptible, Susceptible, Infectious(1), Infectious(0), Infectious(0)]);
    e.step_with_contacts(&vec![(1, 2)]);
    assert_eq!(e.states[1], Infectious(2));
    e.step_with_contacts(&vec![(0, 1)]);
    assert_eq!(e.states[0], Infectious(3));
    e.step_with_contacts(&vec![]);
    assert_eq!(e.states, vec![Infectious(3), Infectious(2), Infectious(1), Infectious(0), Infectious(0)]);
    e.step_with_contacts(&vec![]);
    assert_eq!(e.states, vec![Infectious(3), Infectious(2), Infectious(1), Recovered, Recovered]);
    e.step_with_contacts(&vec![]);
    assert_eq!(e.states[2], Recovered);
    e.step_with_contacts(&vec![]);
    assert_eq!(e.states[1], Recovered);
    assert_eq!(e.step_with_contacts(&vec![]), 8);
    assert_eq!(e.states, vec![Recovered; 5]);
}

#[test]
fn particle_timeline_given_exposures() {
    let mut e = Epidemic::new(&vec![false, false, false, true, true], 1, 5);
    e.step_with_exposures(&vec![]);
    e.step_with_exposures(&vec![]);
    assert_eq!(e.states, vec![Susceptible, Susceptible, Susceptible, Infectious(0), Infectious(0)]);
    e.step_with_exposures(&vec![1]);
    assert_eq!(e.states[1], Exposed(3));
    e.step_with_exposures(&vec![2]);
    assert_eq!(e.states[1], Infectious(4));
    assert_eq!(e.states[2], Exposed(4));
    e.step_with_exposures(&vec![0]);
    assert_eq!(e.states, vec![Exposed(5), Infectious(4), Infectious(5), Recovered, Recovered]);
    e.step_with_exposures(&vec![]);
    assert_eq!(e.states[0], Infectious(6));
    e.step_with_exposures(&vec![]);
    e.step_with_exposures(&vec![]);
    e.step_with_exposures(&vec![]);
    assert_eq!(e.states[1], Recovered);
    assert_eq!(e.states[2], Infectious(5));
    e.step_with_exposures(&vec![]);
    assert_eq!(e.states[2], Recovered);
    assert_eq!(e.states[0], Infectious(6));
    assert_eq!(e.step_with_exposures(&vec![]), 11);
    assert_eq!(e.states, vec![Recovered; 5]);
}
