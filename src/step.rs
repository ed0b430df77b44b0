//! One discrete step of the simulation: snapshot, index, evaluate, commit.
use vstd::prelude::*;
use crate::model::{Agent, SimulationConfig, all_wf, LIMIT, MAX_AGENTS};
use crate::rules::{advance, advance_agent, indices_into, sums, processed};
use crate::spatial::{SpatialIndex, within};
use crate::population::{Population, last_update, committed, unique_ids, in_box, at_rest};

verus! {

/// `nb` is the neighbourhood of agent `i` of `snap`: every other agent within
/// distance `range` of it, each once. An agent is not its own neighbour.
pub open spec fn is_neighborhood(snap: Seq<Agent>, i: int, nb: Seq<usize>, range: int) -> bool {
    &&& nb.no_duplicates()
    &&& forall|m: int|
        0 <= m < nb.len() ==> (#[trigger] nb[m]) < snap.len() && nb[m] != i && within(
            snap[nb[m] as int],
            snap[i].x as int,
            snap[i].y as int,
            range,
        )
    &&& forall|j: int|
        0 <= j < snap.len() && j != i && within(snap[j], snap[i].x as int, snap[i].y as int, range)
            ==> nb.contains(j as usize)
}

/// `b` is what the rules make of agent `i` of `snap`, from its neighbourhood there.
pub open spec fn advanced_from(snap: Seq<Agent>, i: int, b: Agent, cfg: SimulationConfig) -> bool {
    exists|nb: Seq<usize>|
        #[trigger] is_neighborhood(snap, i, nb, cfg.visibility_range as int) && b == advance(snap, snap[i], nb, cfg)
}

/// `next` is what one step makes of `snap`: each agent advanced by the rules
/// from its neighbourhood in `snap` itself.
pub open spec fn stepped(snap: Seq<Agent>, next: Seq<Agent>, cfg: SimulationConfig) -> bool {
    &&& next.len() == snap.len()
    &&& forall|i: int| 0 <= i < snap.len() ==> #[trigger] advanced_from(snap, i, next[i], cfg)
}

/// The neighbourhood of agent `i` of `snap`, found through `index`.
fn neighbours_of(index: &SpatialIndex, snap: &Vec<Agent>, i: usize, range: u64) -> (r: Vec<usize>)
    requires
        index.indexes(snap@),
        all_wf(snap@),
        i < snap@.len(),
        range <= LIMIT,
    ensures
        is_neighborhood(snap@, i as int, r@, range as int),
{
    let n = snap.len();
    let a = snap[i];
    assert(a.wf());
    let found = index.query_within(snap, a.x, a.y, range);
    let mut r: Vec<usize> = Vec::new();
    let mut k: usize = 0;
    while k < found.len()
        invariant
            k <= found@.len(),
            found@.no_duplicates(),
            forall|m: int|
                0 <= m < found@.len() ==> (#[trigger] found@[m]) < snap@.len() && within(
                    snap@[found@[m] as int],
                    a.x as int,
                    a.y as int,
                    range as int,
                ),
            r@.no_duplicates(),
            forall|m: int|
                0 <= m < r@.len() ==> (#[trigger] r@[m]) < snap@.len() && r@[m] != i && within(
                    snap@[r@[m] as int],
                    a.x as int,
                    a.y as int,
                    range as int,
                ),
            forall|m: int| 0 <= m < r@.len() ==> found@.take(k as int).contains(#[trigger] r@[m]),
            forall|m: int| 0 <= m < k && found@[m] != i ==> r@.contains(#[trigger] found@[m]),
        decreases found@.len() - k,
    {
        let j = found[k];
        let ghost before = r@;
        if j != i {
            proof {
                assert forall|m: int| 0 <= m < before.len() implies before[m] != j by {
                    assert(found@.take(k as int).contains(before[m]));
                    let w = choose|w: int| 0 <= w < k && found@.take(k as int)[w] == before[m];
                    assert(found@[w] == before[m]);
                }
            }
            r.push(j);
        }
        proof {
            assert forall|m: int| 0 <= m < r@.len() implies found@.take(k + 1).contains(#[trigger] r@[m]) by {
                if m < before.len() {
                    let w = choose|w: int| 0 <= w < k && found@.take(k as int)[w] == before[m];
                    assert(found@.take(k + 1)[w] == before[m]);
                } else {
                    assert(found@.take(k + 1)[k as int] == j);
                }
            }
            assert forall|m: int| 0 <= m < k + 1 && found@[m] != i implies r@.contains(#[trigger] found@[m]) by {
                if m < k {
                    let w = choose|w: int| 0 <= w < before.len() && before[w] == found@[m];
                    assert(r@[w] == before[w]);
                } else {
                    assert(r@[r@.len() - 1] == j);
                }
            }
        }
        k = k + 1;
    }
    proof {
        assert forall|j: int|
            0 <= j < snap@.len() && j != i && within(snap@[j], a.x as int, a.y as int, range as int)
            implies r@.contains(j as usize) by {
            assert(j < n);
            assert(found@.contains(j as usize));
            let w = choose|w: int| 0 <= w < found@.len() && found@[w] == j as usize;
            assert(found@[w] as int == j);
        }
    }
    r
}

/// The agents of `snap` after one step. Every rule reads `snap` only, so no
/// agent sees another's new state.
pub fn step_agents(snap: &Vec<Agent>, cfg: &SimulationConfig) -> (r: Vec<Agent>)
    requires
        all_wf(snap@),
        cfg.wf(),
        snap@.len() <= MAX_AGENTS,
    ensures
        stepped(snap@, r@, *cfg),
        all_wf(r@),
{
    let index = SpatialIndex::build(snap);
    let mut r: Vec<Agent> = Vec::new();
    let mut i: usize = 0;
    while i < snap.len()
        invariant
            index.indexes(snap@),
            all_wf(snap@),
            cfg.wf(),
            snap@.len() <= MAX_AGENTS,
            i <= snap@.len(),
            r@.len() == i,
            all_wf(r@),
            forall|k: int| 0 <= k < i ==> #[trigger] advanced_from(snap@, k, r@[k], *cfg),
        decreases snap@.len() - i,
    {
        let nb = neighbours_of(&index, snap, i, cfg.visibility_range);
        proof {
            lemma_neighbourhood_size(snap@, i as int, nb@, cfg.visibility_range as int);
        }
        let a = snap[i];
        let next = advance_agent(snap, a, &nb, cfg);
        let ghost before = r@;
        r.push(next);
        proof {
            assert forall|k: int| 0 <= k < i + 1 implies #[trigger] advanced_from(snap@, k, r@[k], *cfg) by {
                if k < i {
                    assert(r@[k] == before[k]);
                } else {
                    assert(is_neighborhood(snap@, k, nb@, cfg.visibility_range as int));
                }
            }
        }
        i = i + 1;
    }
    r
}

/// A neighbourhood holds valid indices, no more than the snapshot has agents.
proof fn lemma_neighbourhood_size(snap: Seq<Agent>, i: int, nb: Seq<usize>, range: int)
    requires
        is_neighborhood(snap, i, nb, range),
    ensures
        indices_into(nb, snap.len() as int),
        nb.len() <= snap.len(),
{
    let t = nb.map_values(|x: usize| x as int);
    assert(t.no_duplicates()) by {
        assert forall|a: int, b: int| 0 <= a < t.len() && 0 <= b < t.len() && a != b implies t[a] != t[b] by {
            assert(nb[a] != nb[b]);
        }
    }
    let range_set = vstd::set_lib::set_int_range(0, snap.len() as int);
    assert(t.to_set().subset_of(range_set)) by {
        assert forall|x: int| t.to_set().contains(x) implies range_set.contains(x) by {
            let m = choose|m: int| 0 <= m < t.len() && t[m] == x;
            assert(nb[m] < snap.len());
        }
    }
    vstd::set_lib::lemma_int_range(0, snap.len() as int);
    t.unique_seq_to_set();
    vstd::set_lib::lemma_len_subset(t.to_set(), range_set);
}

/// With unique ids, the update for the `j`-th agent is the `j`-th update.
proof fn lemma_last_update_at(updates: Seq<Agent>, j: int, k: int)
    requires
        unique_ids(updates),
        0 <= j < k <= updates.len(),
    ensures
        last_update(updates, updates[j].id, k) == Some(updates[j]),
    decreases k,
{
    if k - 1 != j {
        assert(updates[k - 1].id != updates[j].id);
        lemma_last_update_at(updates, j, k - 1);
    }
}

/// One tick: nothing while `paused`; otherwise every agent advanced from
/// the snapshot taken at the start of the tick, then all committed at once.
pub fn tick(pop: &mut Population, cfg: &SimulationConfig, paused: bool)
    requires
        old(pop).wf(),
        cfg.wf(),
    ensures
        final(pop).wf(),
        final(pop).next_id() == old(pop).next_id(),
        paused ==> *final(pop) == *old(pop),
        !paused ==> stepped(old(pop)@, final(pop)@, *cfg),
{
    if paused {
        return;
    }
    let updates = step_agents(pop.agents(), cfg);
    proof {
        assert forall|a: int, b: int|
            0 <= a < updates@.len() && 0 <= b < updates@.len() && a != b implies (#[trigger] updates@[a]).id
            != (#[trigger] updates@[b]).id by {
            assert(advanced_from(pop@, a, updates@[a], *cfg));
            assert(advanced_from(pop@, b, updates@[b], *cfg));
            assert(pop@[a].id != pop@[b].id);
        }
    }
    let ghost snap = pop@;
    pop.commit(&updates);
    proof {
        assert forall|j: int| 0 <= j < snap.len() implies #[trigger] pop@[j] == updates@[j] by {
            assert(advanced_from(snap, j, updates@[j], *cfg));
            lemma_last_update_at(updates@, j, updates@.len() as int);
            assert(pop@[j] == committed(snap[j], updates@));
        }
        assert forall|i: int| 0 <= i < snap.len() implies #[trigger] advanced_from(snap, i, pop@[i], *cfg) by {
            assert(advanced_from(snap, i, updates@[i], *cfg));
        }
    }
}

/// The simulation: its agents, its configuration and whether it is paused.
pub struct Simulation {
    population: Population,
    config: SimulationConfig,
    paused: bool,
}

impl Simulation {
    pub closed spec fn population_view(self) -> Population {
        self.population
    }

    pub closed spec fn config_view(self) -> SimulationConfig {
        self.config
    }

    pub closed spec fn is_paused(self) -> bool {
        self.paused
    }

    pub open spec fn wf(self) -> bool {
        self.population_view().wf() && self.config_view().wf()
    }

    /// A paused simulation with no agents.
    pub fn new(config: SimulationConfig) -> (r: Simulation)
        requires
            config.wf(),
        ensures
            r.wf(),
            r.is_paused(),
            r.config_view() == config,
            r.population_view()@.len() == 0,
    {
        Simulation { population: Population::new(), config, paused: true }
    }

    pub fn population(&self) -> (r: &Population)
        ensures
            *r == self.population_view(),
    {
        &self.population
    }

    pub fn config(&self) -> (r: SimulationConfig)
        ensures
            r == self.config_view(),
    {
        self.config
    }

    pub fn paused(&self) -> (r: bool)
        ensures
            r == self.is_paused(),
    {
        self.paused
    }

    /// Pauses a running simulation, resumes a paused one.
    pub fn toggle_pause(&mut self)
        requires
            old(self).wf(),
        ensures
            final(self).wf(),
            final(self).is_paused() == !old(self).is_paused(),
            final(self).population_view() == old(self).population_view(),
            final(self).config_view() == old(self).config_view(),
    {
        self.paused = !self.paused;
    }

    /// Replaces the configuration; the next tick reads the new one.
    pub fn set_config(&mut self, config: SimulationConfig)
        requires
            old(self).wf(),
            config.wf(),
        ensures
            final(self).wf(),
            final(self).config_view() == config,
            final(self).is_paused() == old(self).is_paused(),
            final(self).population_view() == old(self).population_view(),
    {
        self.config = config;
    }

    /// Spawns up to `k` agents at random points of the configured border box;
    /// returns how many.
    pub fn spawn(&mut self, k: u64) -> (r: u64)
        requires
            old(self).wf(),
        ensures
            final(self).wf(),
            final(self).config_view() == old(self).config_view(),
            final(self).is_paused() == old(self).is_paused(),
            r <= k,
            final(self).population_view()@.len() == old(self).population_view()@.len() + r,
            final(self).population_view()@.take(old(self).population_view()@.len() as int)
                == old(self).population_view()@,
            forall|i: int|
                old(self).population_view()@.len() <= i < final(self).population_view()@.len() ==> in_box(
                    #[trigger] final(self).population_view()@[i],
                    old(self).config_view().border_size,
                ),
            forall|i: int|
                old(self).population_view()@.len() <= i < final(self).population_view()@.len()
                    ==> #[trigger] final(self).population_view()@[i] == at_rest(
                    (old(self).population_view().next_id() + (i - old(self).population_view()@.len())) as u64,
                    final(self).population_view()@[i].x,
                    final(self).population_view()@[i].y,
                ),
            final(self).population_view().next_id() == old(self).population_view().next_id() + r,
            (old(self).population_view()@.len() + k <= MAX_AGENTS && old(self).population_view().next_id() + k
                < u64::MAX) ==> r == k,
    {
        self.population.spawn_many(k, self.config.border_size)
    }

    /// One tick of the simulation with its own configuration and pause flag.
    pub fn step(&mut self)
        requires
            old(self).wf(),
        ensures
            final(self).wf(),
            final(self).config_view() == old(self).config_view(),
            final(self).is_paused() == old(self).is_paused(),
            old(self).is_paused() ==> final(self).population_view() == old(self).population_view(),
            !old(self).is_paused() ==> stepped(
                old(self).population_view()@,
                final(self).population_view()@,
                old(self).config_view(),
            ),
    {
        tick(&mut self.population, &self.config, self.paused);
    }
}

/// The sums over a neighbourhood read only the neighbours' entries.
proof fn lemma_sums_ignore(snap: Seq<Agent>, snap2: Seq<Agent>, a: Agent, nb: Seq<usize>, k: nat, cfg: SimulationConfig, b: int)
    requires
        snap2.len() == snap.len(),
        forall|j: int| 0 <= j < snap.len() && j != b ==> snap2[j] == snap[j],
        forall|m: int| 0 <= m < nb.len() ==> (#[trigger] nb[m]) as int != b,
        indices_into(nb, snap.len() as int),
    ensures
        sums(snap, a, nb, k, cfg) == sums(snap2, a, nb, k, cfg),
    decreases k,
{
    if k > 0 && k <= nb.len() {
        lemma_sums_ignore(snap, snap2, a, nb, (k - 1) as nat, cfg, b);
        assert(nb[k - 1] as int != b && nb[k - 1] < snap.len());
        assert(snap2[nb[k - 1] as int] == snap[nb[k - 1] as int]);
    }
}

/// Moving an agent that stays out of agent `i`'s range, before and after,
/// changes neither which sequences are `i`'s neighbourhoods nor what the
/// rules make of `i` from any of them.
pub proof fn lemma_far_agent_irrelevant(
    snap: Seq<Agent>,
    i: int,
    b: int,
    moved: Agent,
    nb: Seq<usize>,
    cfg: SimulationConfig,
)
    requires
        0 <= i < snap.len(),
        0 <= b < snap.len(),
        b != i,
        !within(snap[b], snap[i].x as int, snap[i].y as int, cfg.visibility_range as int),
        !within(moved, snap[i].x as int, snap[i].y as int, cfg.visibility_range as int),
    ensures
        is_neighborhood(snap, i, nb, cfg.visibility_range as int) == is_neighborhood(
            snap.update(b, moved),
            i,
            nb,
            cfg.visibility_range as int,
        ),
        is_neighborhood(snap, i, nb, cfg.visibility_range as int) ==> advance(snap, snap[i], nb, cfg)
            == advance(snap.update(b, moved), snap.update(b, moved)[i], nb, cfg),
{
    let snap2 = snap.update(b, moved);
    let r = cfg.visibility_range as int;
    assert(snap2[i] == snap[i]);
    let ax = snap[i].x as int;
    let ay = snap[i].y as int;
    assert forall|j: int| 0 <= j < snap.len() implies (#[trigger] within(snap[j], ax, ay, r)) == within(
        snap2[j],
        ax,
        ay,
        r,
    ) by {
        if j == b {
            assert(snap2[j] == moved);
        }
    }
    if is_neighborhood(snap, i, nb, r) {
        assert forall|m: int| 0 <= m < nb.len() implies (#[trigger] nb[m]) as int != b by {
            assert(within(snap[nb[m] as int], ax, ay, r));
        }
        lemma_neighbourhood_size(snap, i, nb, r);
        let k = processed(nb.len() as int, cfg.accuracy) as nat;
        lemma_sums_ignore(snap, snap2, snap[i], nb, k, cfg, b);
        assert(is_neighborhood(snap2, i, nb, r));
    }
    if is_neighborhood(snap2, i, nb, r) {
        assert forall|m: int| 0 <= m < nb.len() implies (#[trigger] nb[m]) < snap.len() && nb[m] != i
            && within(snap[nb[m] as int], ax, ay, r) by {
            assert(within(snap2[nb[m] as int], ax, ay, r));
        }
        assert forall|j: int| 0 <= j < snap.len() && j != i && within(snap[j], ax, ay, r) implies nb.contains(
            j as usize,
        ) by {
            assert(within(snap2[j], ax, ay, r));
        }
    }
}

} // verus!
