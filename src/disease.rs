use vstd::prelude::*;

verus! {

/// Where a person stands in the course of the disease. `Exposed` and
/// `Infectious` hold the tick at which the person entered that state.
#[derive(Debug, Clone, Copy, PartialEq, Eq, Structural)]
pub enum DiseaseState {
    Susceptible,
    Exposed(usize),
    Infectious(usize),
    Recovered,
}

/// The position of a state along Susceptible, Exposed, Infectious,
/// Recovered.
pub open spec fn stage(s: DiseaseState) -> int {
    match s {
        DiseaseState::Susceptible => 0,
        DiseaseState::Exposed(_) => 1,
        DiseaseState::Infectious(_) => 2,
        DiseaseState::Recovered => 3,
    }
}

/// The tick stored in a state is not after `tick`.
pub open spec fn entered_by(s: DiseaseState, tick: int) -> bool {
    match s {
        DiseaseState::Exposed(t) => t <= tick,
        DiseaseState::Infectious(t) => t <= tick,
        _ => true,
    }
}

/// The state at `tick` once the time spent in it is counted: an exposed
/// person becomes infectious after `exposed_period` ticks, an infectious one
/// recovers after `infectious_period` ticks.
pub open spec fn advanced(s: DiseaseState, tick: int, exposed_period: int, infectious_period: int) -> DiseaseState {
    match s {
        DiseaseState::Exposed(t) => if tick - t >= exposed_period {
            DiseaseState::Infectious(tick as usize)
        } else {
            s
        },
        DiseaseState::Infectious(t) => if tick - t >= infectious_period {
            DiseaseState::Recovered
        } else {
            s
        },
        _ => s,
    }
}

/// Whether a contact joins person `k` to a person who is infectious.
pub open spec fn near_infectious(states: Seq<DiseaseState>, contacts: Seq<(usize, usize)>, k: int) -> bool {
    exists|c: int|
        0 <= c < contacts.len() && ((#[trigger] contacts[c]).0 == k && states[contacts[c].1 as int] is Infectious
            || contacts[c].1 == k && states[contacts[c].0 as int] is Infectious)
}

/// Person `k`'s state after the contacts of a tick: a susceptible person in
/// contact with an infectious one is exposed at `tick`.
pub open spec fn after_contacts(states: Seq<DiseaseState>, contacts: Seq<(usize, usize)>, tick: int, k: int) -> DiseaseState {
    if states[k] is Susceptible && near_infectious(states, contacts, k) {
        DiseaseState::Exposed(tick as usize)
    } else {
        states[k]
    }
}

/// Person `k`'s state after exposure of the persons listed in `who`: a
/// susceptible person on the list is exposed at `tick`.
pub open spec fn after_exposure(states: Seq<DiseaseState>, who: Seq<usize>, tick: int, k: int) -> DiseaseState {
    if states[k] is Susceptible && who.contains(k as usize) {
        DiseaseState::Exposed(tick as usize)
    } else {
        states[k]
    }
}

impl DiseaseState {
    /// Whether the person can pass the disease on.
    pub fn is_infectious(&self) -> (r: bool)
        ensures
            r == (*self is Infectious),
    {
        match self {
            DiseaseState::Infectious(_) => true,
            _ => false,
        }
    }
}

/// The state at `tick` once the time spent in it is counted.
pub fn advance_disease_state(
    s: DiseaseState,
    tick: usize,
    exposed_period_ticks: usize,
    infectious_period_ticks: usize,
) -> (r: DiseaseState)
    requires
        entered_by(s, tick as int),
    ensures
        r == advanced(s, tick as int, exposed_period_ticks as int, infectious_period_ticks as int),
{
    match s {
        DiseaseState::Exposed(start_tick) => {
            if tick - start_tick >= exposed_period_ticks {
                DiseaseState::Infectious(tick)
            } else {
                s
            }
        },
        DiseaseState::Infectious(start_tick) => {
            if tick - start_tick >= infectious_period_ticks {
                DiseaseState::Recovered
            } else {
                s
            }
        },
        _ => s,
    }
}

/// Counts the time spent in each state for every person at `tick`.
pub fn advance_disease_states(
    states: &mut Vec<DiseaseState>,
    tick: usize,
    exposed_period_ticks: usize,
    infectious_period_ticks: usize,
)
    requires
        forall|i: int| 0 <= i < old(states)@.len() ==> entered_by(#[trigger] old(states)@[i], tick as int),
    ensures
        final(states)@.len() == old(states)@.len(),
        forall|i: int|
            0 <= i < old(states)@.len() ==> #[trigger] final(states)@[i] == advanced(
                old(states)@[i],
                tick as int,
                exposed_period_ticks as int,
                infectious_period_ticks as int,
            ),
{
    let ghost start = states@;
    let mut i: usize = 0;
    while i < states.len()
        invariant
            states@.len() == start.len(),
            i <= start.len(),
            forall|j: int| 0 <= j < start.len() ==> entered_by(#[trigger] start[j], tick as int),
            forall|j: int|
                0 <= j < i ==> #[trigger] states@[j] == advanced(
                    start[j],
                    tick as int,
                    exposed_period_ticks as int,
                    infectious_period_ticks as int,
                ),
            forall|j: int| i <= j < start.len() ==> #[trigger] states@[j] == start[j],
        decreases start.len() - i,
    {
        let next = advance_disease_state(states[i], tick, exposed_period_ticks, infectious_period_ticks);
        states.set(i, next);
        i += 1;
    }
}

/// The infection-radius spread of one tick: every susceptible person in one
/// of the `contacts` (pairs of people close enough) with an infectious
/// person becomes exposed at `tick`.
pub fn spread_infection_radius(states: &mut Vec<DiseaseState>, tick: usize, contacts: &Vec<(usize, usize)>)
    requires
        forall|c: int|
            0 <= c < contacts@.len() ==> (#[trigger] contacts@[c]).0 < old(states)@.len()
                && contacts@[c].1 < old(states)@.len(),
    ensures
        final(states)@.len() == old(states)@.len(),
        forall|k: int|
            0 <= k < old(states)@.len() ==> #[trigger] final(states)@[k] == after_contacts(
                old(states)@,
                contacts@,
                tick as int,
                k,
            ),
{
    let ghost start = states@;
    let mut c: usize = 0;
    while c < contacts.len()
        invariant
            states@.len() == start.len(),
            c <= contacts@.len(),
            forall|d: int|
                0 <= d < contacts@.len() ==> (#[trigger] contacts@[d]).0 < start.len() && contacts@[d].1
                    < start.len(),
            forall|k: int|
                0 <= k < start.len() ==> #[trigger] states@[k] == after_contacts(
                    start,
                    contacts@.subrange(0, c as int),
                    tick as int,
                    k,
                ),
            forall|k: int| 0 <= k < start.len() ==> (#[trigger] states@[k] is Infectious <==> start[k] is Infectious),
        decreases contacts@.len() - c,
    {
        let (a, b) = contacts[c];
        let ghost seen = contacts@.subrange(0, c as int);
        let ghost next = contacts@.subrange(0, c + 1);
        assert(next =~= seen.push((a, b)));
        if states[a] == DiseaseState::Susceptible && states[b].is_infectious() {
            states.set(a, DiseaseState::Exposed(tick));
        } else if states[a].is_infectious() && states[b] == DiseaseState::Susceptible {
            states.set(b, DiseaseState::Exposed(tick));
        }
        proof {
            assert forall|k: int| 0 <= k < start.len() implies #[trigger] states@[k] == after_contacts(
                start,
                next,
                tick as int,
                k,
            ) by {
                if near_infectious(start, seen, k) {
                    let w = choose|d: int|
                        0 <= d < seen.len() && ((#[trigger] seen[d]).0 == k && start[seen[d].1 as int] is Infectious
                            || seen[d].1 == k && start[seen[d].0 as int] is Infectious);
                    assert(next[w] == seen[w]);
                }
                if k == a as int && start[b as int] is Infectious {
                    assert(next[c as int] == (a, b));
                }
                if k == b as int && start[a as int] is Infectious {
                    assert(next[c as int] == (a, b));
                }
                if near_infectious(start, next, k) && !near_infectious(start, seen, k) {
                    let w = choose|d: int|
                        0 <= d < next.len() && ((#[trigger] next[d]).0 == k && start[next[d].1 as int] is Infectious
                            || next[d].1 == k && start[next[d].0 as int] is Infectious);
                    if w < c {
                        assert(seen[w] == next[w]);
                    }
                }
            }
        }
        c += 1;
    }
    assert(contacts@.subrange(0, c as int) =~= contacts@);
}

/// Exposes at `tick` every susceptible person listed in `who`.
pub fn expose_people(states: &mut Vec<DiseaseState>, tick: usize, who: &Vec<usize>)
    requires
        forall|c: int| 0 <= c < who@.len() ==> #[trigger] who@[c] < old(states)@.len(),
    ensures
        final(states)@.len() == old(states)@.len(),
        forall|k: int|
            0 <= k < old(states)@.len() ==> #[trigger] final(states)@[k] == after_exposure(
                old(states)@,
                who@,
                tick as int,
                k,
            ),
{
    let ghost start = states@;
    let mut c: usize = 0;
    let n = states.len();
    while c < who.len()
        invariant
            states@.len() == start.len(),
            start.len() == n,
            c <= who@.len(),
            forall|d: int| 0 <= d < who@.len() ==> #[trigger] who@[d] < start.len(),
            forall|k: int|
                0 <= k < start.len() ==> #[trigger] states@[k] == after_exposure(
                    start,
                    who@.subrange(0, c as int),
                    tick as int,
                    k,
                ),
        decreases who@.len() - c,
    {
        let p = who[c];
        let ghost seen = who@.subrange(0, c as int);
        let ghost next = who@.subrange(0, c + 1);
        assert(next =~= seen.push(p));
        let ghost prev = states@;
        if states[p] == DiseaseState::Susceptible {
            states.set(p, DiseaseState::Exposed(tick));
        }
        proof {
            assert forall|k: int| 0 <= k < start.len() implies #[trigger] states@[k] == after_exposure(
                start,
                next,
                tick as int,
                k,
            ) by {
                assert(next.contains(k as usize) <==> seen.contains(k as usize) || p == k as usize) by {
                    if next.contains(k as usize) {
                        let w = choose|d: int| 0 <= d < next.len() && next[d] == k as usize;
                        if w < c {
                            assert(seen[w] == next[w]);
                        }
                    }
                    if seen.contains(k as usize) {
                        let w = choose|d: int| 0 <= d < seen.len() && seen[d] == k as usize;
                        assert(next[w] == seen[w]);
                    }
                    if p == k as usize {
                        assert(next[c as int] == p);
                    }
                }
                assert(prev[k] == after_exposure(start, seen, tick as int, k));
                if k != p as int {
                    assert(states@[k] == prev[k]);
                    assert(next.contains(k as usize) == seen.contains(k as usize));
                } else {
                    assert(next.contains(k as usize));
                    if prev[k] is Susceptible {
                        assert(start[k] is Susceptible);
                        assert(states@[k] == DiseaseState::Exposed(tick));
                    } else {
                        assert(states@[k] == prev[k]);
                    }
                }
            }
        }
        c += 1;
    }
    assert(who@.subrange(0, c as int) =~= who@);
}

/// The number of states in `states` at stage `st`.
pub open spec fn count_stage(states: Seq<DiseaseState>, st: int) -> nat
    decreases states.len(),
{
    if states.len() == 0 {
        0
    } else {
        count_stage(states.drop_last(), st) + if stage(states.last()) == st {
            1nat
        } else {
            0nat
        }
    }
}

/// Every person is in exactly one of the four states: the susceptible,
/// exposed, infectious and recovered counts add up to the population, which
/// every update of the states keeps.
pub proof fn lemma_population_conserved(states: Seq<DiseaseState>)
    ensures
        count_stage(states, 0) + count_stage(states, 1) + count_stage(states, 2) + count_stage(states, 3)
            == states.len(),
    decreases states.len(),
{
    if states.len() > 0 {
        lemma_population_conserved(states.drop_last());
    }
}

/// No update moves a person back: the stage never decreases, a recovered
/// person stays recovered, and an infectious one stays infectious or
/// recovers.
pub proof fn lemma_stages_never_go_back(
    states: Seq<DiseaseState>,
    contacts: Seq<(usize, usize)>,
    who: Seq<usize>,
    k: int,
    tick: int,
    exposed_period: int,
    infectious_period: int,
)
    requires
        0 <= k < states.len(),
        0 <= tick <= usize::MAX,
    ensures
        stage(advanced(states[k], tick, exposed_period, infectious_period)) >= stage(states[k]),
        stage(after_contacts(states, contacts, tick, k)) >= stage(states[k]),
        stage(after_exposure(states, who, tick, k)) >= stage(states[k]),
        states[k] is Recovered ==> advanced(states[k], tick, exposed_period, infectious_period) is Recovered
            && after_contacts(states, contacts, tick, k) is Recovered && after_exposure(states, who, tick, k) is Recovered,
        states[k] is Infectious ==> stage(advanced(states[k], tick, exposed_period, infectious_period)) >= 2
            && after_contacts(states, contacts, tick, k) == states[k] && after_exposure(states, who, tick, k) == states[k],
{
}

/// With an exposed period of zero, a person exposed at tick `t` is
/// infectious from tick `t + 1`, the next tick.
pub proof fn lemma_zero_exposed_period(t: usize, infectious_period: int)
    requires
        t < usize::MAX,
    ensures
        advanced(DiseaseState::Exposed(t), t + 1, 0, infectious_period) == DiseaseState::Infectious((t + 1) as usize),
{
}


proof fn lemma_count_stage_bound(states: Seq<DiseaseState>, st: int)
    ensures
        count_stage(states, st) <= states.len(),
    decreases states.len(),
{
    if states.len() > 0 {
        lemma_count_stage_bound(states.drop_last(), st);
    }
}

/// How many people are susceptible, exposed, infectious and recovered.
pub fn tally(states: &Vec<DiseaseState>) -> (r: (usize, usize, usize, usize))
    ensures
        r.0 == count_stage(states@, 0),
        r.1 == count_stage(states@, 1),
        r.2 == count_stage(states@, 2),
        r.3 == count_stage(states@, 3),
{
    let mut counts: (usize, usize, usize, usize) = (0, 0, 0, 0);
    let mut i: usize = 0;
    while i < states.len()
        invariant
            i <= states@.len(),
            counts.0 == count_stage(states@.subrange(0, i as int), 0),
            counts.1 == count_stage(states@.subrange(0, i as int), 1),
            counts.2 == count_stage(states@.subrange(0, i as int), 2),
            counts.3 == count_stage(states@.subrange(0, i as int), 3),
        decreases states@.len() - i,
    {
        let ghost next = states@.subrange(0, i + 1);
        proof {
            assert(next.drop_last() =~= states@.subrange(0, i as int));
            lemma_count_stage_bound(states@.subrange(0, i as int), 0);
            lemma_count_stage_bound(states@.subrange(0, i as int), 1);
            lemma_count_stage_bound(states@.subrange(0, i as int), 2);
            lemma_count_stage_bound(states@.subrange(0, i as int), 3);
        }
        match states[i] {
            DiseaseState::Susceptible => counts.0 = counts.0 + 1,
            DiseaseState::Exposed(_) => counts.1 = counts.1 + 1,
            DiseaseState::Infectious(_) => counts.2 = counts.2 + 1,
            DiseaseState::Recovered => counts.3 = counts.3 + 1,
        }
        i += 1;
    }
    assert(states@.subrange(0, i as int) =~= states@);
    counts
}

/// Whether the outbreak has run its course: nobody is exposed or
/// infectious.
pub fn outbreak_over(states: &Vec<DiseaseState>) -> (r: bool)
    ensures
        r <==> forall|i: int| 0 <= i < states@.len() ==> !(#[trigger] states@[i] is Exposed) && !(states@[i] is Infectious),
{
    let mut i: usize = 0;
    while i < states.len()
        invariant
            i <= states@.len(),
            forall|j: int| 0 <= j < i ==> !(#[trigger] states@[j] is Exposed) && !(states@[j] is Infectious),
        decreases states@.len() - i,
    {
        match states[i] {
            DiseaseState::Exposed(_) | DiseaseState::Infectious(_) => {
                return false;
            },
            _ => {},
        }
        i += 1;
    }
    true
}


/// How a state may change in one step at `tick`: nobody moves back, an
/// exposed person stays or becomes infectious at `tick`, an infectious one
/// stays or recovers, a recovered one stays, and a susceptible one stays or
/// is exposed (or, with no exposed period, infectious) at `tick`.
pub open spec fn allowed_change(before: DiseaseState, after: DiseaseState, tick: int) -> bool {
    &&& stage(after) >= stage(before)
    &&& match before {
        DiseaseState::Susceptible => after is Susceptible || after == DiseaseState::Exposed(tick as usize)
            || after == DiseaseState::Infectious(tick as usize),
        DiseaseState::Exposed(t) => after == DiseaseState::Exposed(t) || after == DiseaseState::Infectious(
            tick as usize,
        ),
        DiseaseState::Infectious(t) => after == DiseaseState::Infectious(t) || after is Recovered,
        DiseaseState::Recovered => after is Recovered,
    }
}

/// The disease states of a population, the current tick, and how long the
/// exposed and infectious states last.
#[derive(Debug)]
pub struct Epidemic {
    pub tick: usize,
    pub states: Vec<DiseaseState>,
    pub exposed_period_ticks: usize,
    pub infectious_period_ticks: usize,
}

impl Epidemic {
    /// No state was entered after the current tick.
    pub open spec fn wf(&self) -> bool {
        forall|i: int| 0 <= i < self.states@.len() ==> entered_by(#[trigger] self.states@[i], self.tick as int)
    }

    /// Tick zero: infectious since tick zero where `infected` says so,
    /// susceptible otherwise.
    pub fn new(infected: &Vec<bool>, exposed_period_ticks: usize, infectious_period_ticks: usize) -> (r: Epidemic)
        ensures
            r.wf(),
            r.tick == 0,
            r.exposed_period_ticks == exposed_period_ticks,
            r.infectious_period_ticks == infectious_period_ticks,
            r.states@.len() == infected@.len(),
            forall|i: int|
                0 <= i < infected@.len() ==> #[trigger] r.states@[i] == if infected@[i] {
                    DiseaseState::Infectious(0)
                } else {
                    DiseaseState::Susceptible
                },
    {
        let mut states: Vec<DiseaseState> = Vec::new();
        let mut i: usize = 0;
        while i < infected.len()
            invariant
                i <= infected@.len(),
                states@.len() == i,
                forall|j: int|
                    0 <= j < i ==> #[trigger] states@[j] == if infected@[j] {
                        DiseaseState::Infectious(0)
                    } else {
                        DiseaseState::Susceptible
                    },
            decreases infected@.len() - i,
        {
            if infected[i] {
                states.push(DiseaseState::Infectious(0));
            } else {
                states.push(DiseaseState::Susceptible);
            }
            i += 1;
        }
        Epidemic { tick: 0, states, exposed_period_ticks, infectious_period_ticks }
    }

    /// One tick of the infection-radius model: the clock moves on, the
    /// `contacts` expose susceptible people, then time-based transitions
    /// apply. Returns the new tick.
    pub fn step_with_contacts(&mut self, contacts: &Vec<(usize, usize)>) -> (r: usize)
        requires
            old(self).wf(),
            old(self).tick < usize::MAX,
            forall|c: int|
                0 <= c < contacts@.len() ==> (#[trigger] contacts@[c]).0 < old(self).states@.len()
                    && contacts@[c].1 < old(self).states@.len(),
        ensures
            final(self).wf(),
            r == final(self).tick,
            final(self).tick == old(self).tick + 1,
            final(self).exposed_period_ticks == old(self).exposed_period_ticks,
            final(self).infectious_period_ticks == old(self).infectious_period_ticks,
            final(self).states@.len() == old(self).states@.len(),
            forall|k: int|
                0 <= k < old(self).states@.len() ==> #[trigger] final(self).states@[k] == advanced(
                    after_contacts(old(self).states@, contacts@, final(self).tick as int, k),
                    final(self).tick as int,
                    old(self).exposed_period_ticks as int,
                    old(self).infectious_period_ticks as int,
                ),
            count_stage(final(self).states@, 0) + count_stage(final(self).states@, 1) + count_stage(
                final(self).states@,
                2,
            ) + count_stage(final(self).states@, 3) == old(self).states@.len(),
            forall|k: int|
                0 <= k < old(self).states@.len() ==> allowed_change(
                    old(self).states@[k],
                    #[trigger] final(self).states@[k],
                    final(self).tick as int,
                ),
            old(self).exposed_period_ticks == 0 ==> forall|k: int|
                0 <= k < old(self).states@.len() ==> !(#[trigger] final(self).states@[k] is Exposed),
    {
        self.tick = self.tick + 1;
        let tick = self.tick;
        let ghost before = self.states@;
        spread_infection_radius(&mut self.states, tick, contacts);
        assert forall|i: int| 0 <= i < self.states@.len() implies entered_by(#[trigger] self.states@[i], tick as int) by {
            assert(self.states@[i] == after_contacts(before, contacts@, tick as int, i));
            assert(entered_by(before[i], tick - 1));
        }
        advance_disease_states(&mut self.states, tick, self.exposed_period_ticks, self.infectious_period_ticks);
        proof {
            lemma_population_conserved(self.states@);
            assert forall|k: int| 0 <= k < before.len() implies allowed_change(
                before[k],
                #[trigger] self.states@[k],
                tick as int,
            ) by {
                assert(entered_by(before[k], tick - 1));
            }
        }
        tick
    }

    /// One tick of the particle model: the clock moves on, the people in
    /// `who` are exposed if susceptible, then time-based transitions apply.
    /// Returns the new tick.
    pub fn step_with_exposures(&mut self, who: &Vec<usize>) -> (r: usize)
        requires
            old(self).wf(),
            old(self).tick < usize::MAX,
            forall|c: int| 0 <= c < who@.len() ==> #[trigger] who@[c] < old(self).states@.len(),
        ensures
            final(self).wf(),
            r == final(self).tick,
            final(self).tick == old(self).tick + 1,
            final(self).exposed_period_ticks == old(self).exposed_period_ticks,
            final(self).infectious_period_ticks == old(self).infectious_period_ticks,
            final(self).states@.len() == old(self).states@.len(),
            forall|k: int|
                0 <= k < old(self).states@.len() ==> #[trigger] final(self).states@[k] == advanced(
                    after_exposure(old(self).states@, who@, final(self).tick as int, k),
                    final(self).tick as int,
                    old(self).exposed_period_ticks as int,
                    old(self).infectious_period_ticks as int,
                ),
            count_stage(final(self).states@, 0) + count_stage(final(self).states@, 1) + count_stage(
                final(self).states@,
                2,
            ) + count_stage(final(self).states@, 3) == old(self).states@.len(),
            forall|k: int|
                0 <= k < old(self).states@.len() ==> allowed_change(
                    old(self).states@[k],
                    #[trigger] final(self).states@[k],
                    final(self).tick as int,
                ),
            old(self).exposed_period_ticks == 0 ==> forall|k: int|
                0 <= k < old(self).states@.len() ==> !(#[trigger] final(self).states@[k] is Exposed),
    {
        self.tick = self.tick + 1;
        let tick = self.tick;
        let ghost before = self.states@;
        expose_people(&mut self.states, tick, who);
        assert forall|i: int| 0 <= i < self.states@.len() implies entered_by(#[trigger] self.states@[i], tick as int) by {
            assert(self.states@[i] == after_exposure(before, who@, tick as int, i));
            assert(entered_by(before[i], tick - 1));
        }
        advance_disease_states(&mut self.states, tick, self.exposed_period_ticks, self.infectious_period_ticks);
        proof {
            lemma_population_conserved(self.states@);
            assert forall|k: int| 0 <= k < before.len() implies allowed_change(
                before[k],
                #[trigger] self.states@[k],
                tick as int,
            ) by {
                assert(entered_by(before[k], tick - 1));
            }
        }
        tick
    }
}

/// A step of the epidemic keeps every person in exactly one of the four
/// states, and moves nobody back along Susceptible, Exposed, Infectious,
/// Recovered.
pub proof fn lemma_step_keeps_course(
    before: Seq<DiseaseState>,
    after: Seq<DiseaseState>,
    contacts: Seq<(usize, usize)>,
    tick: int,
    exposed_period: int,
    infectious_period: int,
)
    requires
        0 <= tick <= usize::MAX,
        after.len() == before.len(),
        forall|k: int|
            0 <= k < before.len() ==> #[trigger] after[k] == advanced(
                after_contacts(before, contacts, tick, k),
                tick,
                exposed_period,
                infectious_period,
            ),
    ensures
        count_stage(after, 0) + count_stage(after, 1) + count_stage(after, 2) + count_stage(after, 3)
            == before.len(),
        forall|k: int| 0 <= k < before.len() ==> stage(#[trigger] after[k]) >= stage(before[k]),
        forall|k: int| 0 <= k < before.len() ==> (before[k] is Recovered ==> #[trigger] after[k] is Recovered),
        forall|k: int| 0 <= k < before.len() ==> (before[k] is Infectious ==> stage(#[trigger] after[k]) >= 2),
{
    lemma_population_conserved(after);
    assert forall|k: int| 0 <= k < before.len() implies stage(#[trigger] after[k]) >= stage(before[k]) && (before[k] is Recovered ==> after[k] is Recovered) && (before[k] is Infectious ==> stage(after[k]) >= 2) by {
        let mid = after_contacts(before, contacts, tick, k);
        lemma_stages_never_go_back(before, contacts, Seq::<usize>::empty(), k, tick, exposed_period, infectious_period);
        let ms = seq![mid];
        lemma_stages_never_go_back(ms, contacts, Seq::<usize>::empty(), 0, tick, exposed_period, infectious_period);
    }
}

} // verus!
