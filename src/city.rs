use vstd::prelude::*;

verus! {

/// The course of the disease in the hour-by-hour city model.
#[derive(Debug, Clone, Copy, PartialEq, Eq, Structural)]
pub enum DiseaseStatus {
    Susceptible,
    /// Infected but not yet infectious.
    Latent,
    /// Infectious, before symptoms.
    InfPreSym,
    /// Infectious, without symptoms.
    InfASym,
    /// Infectious, with symptoms.
    InfSym,
    Recovered,
}

impl DiseaseStatus {
    /// Whether a person in this status can infect others.
    pub fn is_infectious(&self) -> (r: bool)
        ensures
            r <==> (*self is InfPreSym || *self is InfASym || *self is InfSym),
    {
        match self {
            DiseaseStatus::Susceptible => false,
            DiseaseStatus::Latent => false,
            DiseaseStatus::InfPreSym => true,
            DiseaseStatus::InfASym => true,
            DiseaseStatus::InfSym => true,
            DiseaseStatus::Recovered => false,
        }
    }
}

/// What a building of the city is used for.
#[derive(Debug, Clone, Copy, PartialEq, Eq, Structural, Hash)]
pub enum BuildingType {
    Residence,
    School,
    Office,
    Restaurant,
    Store,
    Other,
}

/// The first hour of the day spent at the secondary building.
pub const WORK_START_HOUR: usize = 9;

/// The hour at which people leave the secondary building for home.
pub const WORK_END_HOUR: usize = 17;

/// Where a person is in each hour of the day: at home, except from nine to
/// five at the secondary building if there is one.
pub fn make_schedule(home_building_id: usize, secondary_building_id: Option<usize>) -> (r: [usize; 24])
    ensures
        forall|h: int|
            0 <= h < 24 ==> #[trigger] r@[h] == match secondary_building_id {
                Some(n) => if WORK_START_HOUR <= h < WORK_END_HOUR {
                    n
                } else {
                    home_building_id
                },
                None => home_building_id,
            },
{
    let mut schedule = [home_building_id; 24];
    if let Some(n) = secondary_building_id {
        let mut i: usize = WORK_START_HOUR;
        while i < WORK_END_HOUR
            invariant
                WORK_START_HOUR <= i <= WORK_END_HOUR,
                forall|h: int|
                    0 <= h < 24 ==> #[trigger] schedule@[h] == if WORK_START_HOUR <= h < i {
                        n
                    } else {
                        home_building_id
                    },
            decreases WORK_END_HOUR - i,
        {
            schedule[i] = n;
            i += 1;
        }
    }
    schedule
}

} // verus!
