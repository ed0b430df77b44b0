//! The population of agents: spawning, removal, lookup and committing a step.
use vstd::prelude::*;
use vstd::arithmetic::div_mod::lemma_fundamental_div_mod;
use crate::model::{Agent, all_wf, LIMIT, MAX_AGENTS, MAX_BORDER, UNIT};

verus! {

/// No two agents of the sequence share an id.
pub open spec fn unique_ids(agents: Seq<Agent>) -> bool {
    forall|i: int, j: int|
        0 <= i < agents.len() && 0 <= j < agents.len() && i != j ==> (#[trigger] agents[i]).id
            != (#[trigger] agents[j]).id
}

/// A fresh agent at rest.
pub open spec fn at_rest(id: u64, x: i64, y: i64) -> Agent {
    Agent { id, x, y, vx: 0, vy: 0, neighbor_count: 0 }
}

/// The coordinate that a draw of 64 random bits picks in `[-size, size]`,
/// `size` being `border_size` world units.
pub open spec fn coordinate_of(draw: u64, border_size: i32) -> int {
    let size = border_size * UNIT;
    (draw * (2 * size + 1)) / 0x1_0000_0000_0000_0000 - size
}

/// Agent `a` stands inside the box `[-border_size, border_size]` (world units).
pub open spec fn in_box(a: Agent, border_size: i32) -> bool {
    -(border_size * UNIT) <= a.x <= border_size * UNIT && -(border_size * UNIT) <= a.y <= border_size * UNIT
}

/// The last of `updates[..k]` that carries `id`.
pub open spec fn last_update(updates: Seq<Agent>, id: u64, k: int) -> Option<Agent>
    decreases k,
{
    if k <= 0 || k > updates.len() {
        None
    } else if updates[k - 1].id == id {
        Some(updates[k - 1])
    } else {
        last_update(updates, id, k - 1)
    }
}

/// Agent `a` once the updates are committed: replaced by the last update that
/// carries its id, or kept when there is none.
pub open spec fn committed(a: Agent, updates: Seq<Agent>) -> Agent {
    match last_update(updates, a.id, updates.len() as int) {
        Some(u) => u,
        None => a,
    }
}

/// Relies on rand::random::<u64>: some 64 random bits.
#[verifier::external_body]
fn random_bits() -> (r: u64) {
    rand::random::<u64>()
}

/// The coordinate in `[-border_size, border_size]` (world units) picked by `draw`,
/// spread evenly over the interval.
pub fn coordinate_from_draw(draw: u64, border_size: i32) -> (r: i64)
    requires
        0 <= border_size <= MAX_BORDER,
    ensures
        r == coordinate_of(draw, border_size),
        -(border_size * UNIT) <= r <= border_size * UNIT,
{
    let size: u128 = border_size as u128 * 1_000_000;
    assert(size == border_size * UNIT && size <= 1_000_000_000_000);
    let span: u128 = 2 * size + 1;
    proof {
        assert(draw * span <= 0xffff_ffff_ffff_ffff * span) by (nonlinear_arith)
            requires
                draw <= 0xffff_ffff_ffff_ffff,
                span >= 0,
        ;
        assert(0 <= draw * span) by (nonlinear_arith)
            requires
                draw >= 0,
                span >= 0,
        ;
    }
    let scaled: u128 = draw as u128 * span;
    let offset: u128 = scaled / 0x1_0000_0000_0000_0000;
    proof {
        let d: int = 0x1_0000_0000_0000_0000;
        lemma_fundamental_div_mod(scaled as int, d);
        assert(offset < span) by (nonlinear_arith)
            requires
                scaled == d * offset + (scaled as int) % d,
                0 <= (scaled as int) % d,
                scaled <= (d - 1) * span,
                d > 0,
                span > 0,
                offset >= 0,
        ;
    }
    offset as i64 - size as i64
}

/// The agents of a simulation, each with an id of its own.
pub struct Population {
    agents: Vec<Agent>,
    next_id: u64,
}

impl View for Population {
    type V = Seq<Agent>;

    closed spec fn view(&self) -> Seq<Agent> {
        self.agents@
    }
}

impl Population {
    /// The id the next spawned agent gets.
    pub closed spec fn next_id(self) -> u64 {
        self.next_id
    }

    /// Ids are unique and below `next_id`, agents are within bounds.
    pub open spec fn wf(self) -> bool {
        &&& all_wf(self@)
        &&& unique_ids(self@)
        &&& self@.len() <= MAX_AGENTS
        &&& forall|i: int| 0 <= i < self@.len() ==> (#[trigger] self@[i]).id < self.next_id()
    }

    /// Another agent can be spawned.
    pub open spec fn has_room(self) -> bool {
        self@.len() < MAX_AGENTS && self.next_id() < u64::MAX
    }

    /// An empty population.
    pub fn new() -> (r: Population)
        ensures
            r.wf(),
            r@.len() == 0,
            r.next_id() == 0,
    {
        Population { agents: Vec::new(), next_id: 0 }
    }

    /// The number of agents.
    pub fn count(&self) -> (r: usize)
        ensures
            r == self@.len(),
    {
        self.agents.len()
    }

    /// The agents, in order of spawning.
    pub fn agents(&self) -> (r: &Vec<Agent>)
        ensures
            r@ == self@,
    {
        &self.agents
    }

    /// The position of the agent with id `id`.
    pub fn find(&self, id: u64) -> (r: Option<usize>)
        ensures
            r matches Some(i) ==> i < self@.len() && self@[i as int].id == id,
            r is None ==> forall|i: int| 0 <= i < self@.len() ==> (#[trigger] self@[i]).id != id,
    {
        let mut i: usize = 0;
        while i < self.agents.len()
            invariant
                i <= self@.len(),
                self@ == self.agents@,
                forall|j: int| 0 <= j < i ==> (#[trigger] self@[j]).id != id,
            decreases self@.len() - i,
        {
            if self.agents[i].id == id {
                return Some(i);
            }
            i = i + 1;
        }
        None
    }

    /// The agent with id `id`.
    pub fn get(&self, id: u64) -> (r: Option<Agent>)
        ensures
            r matches Some(a) ==> a.id == id && self@.contains(a),
            r is None ==> forall|i: int| 0 <= i < self@.len() ==> (#[trigger] self@[i]).id != id,
    {
        match self.find(id) {
            Some(i) => {
                assert(self@[i as int] == self.agents@[i as int]);
                Some(self.agents[i])
            },
            None => None,
        }
    }

    /// Adds an agent at rest at `(x, y)` and returns its id; `None`, with
    /// nothing changed, when there is no room.
    pub fn spawn(&mut self, x: i64, y: i64) -> (r: Option<u64>)
        requires
            old(self).wf(),
            -LIMIT <= x <= LIMIT,
            -LIMIT <= y <= LIMIT,
        ensures
            final(self).wf(),
            old(self).has_room() ==> r == Some(old(self).next_id()) && final(self)@ == old(self)@.push(
                at_rest(old(self).next_id(), x, y),
            ) && final(self).next_id() == old(self).next_id() + 1,
            !old(self).has_room() ==> r is None && *final(self) == *old(self),
    {
        if self.agents.len() >= MAX_AGENTS || self.next_id == u64::MAX {
            return None;
        }
        let id = self.next_id;
        self.agents.push(Agent { id, x, y, vx: 0, vy: 0, neighbor_count: 0 });
        self.next_id = id + 1;
        assert(self@ == self.agents@);
        Some(id)
    }

    /// Adds an agent at rest at a random point of the box
    /// `[-border_size, border_size]` (world units) and returns its id; `None`,
    /// with nothing changed, when there is no room.
    pub fn spawn_random(&mut self, border_size: i32) -> (r: Option<u64>)
        requires
            old(self).wf(),
            0 <= border_size <= MAX_BORDER,
        ensures
            final(self).wf(),
            old(self).has_room() ==> r == Some(old(self).next_id()) && final(self)@.len() == old(self)@.len() + 1
                && final(self)@.take(old(self)@.len() as int) == old(self)@ && final(self).next_id()
                == old(self).next_id() + 1 && in_box(final(self)@.last(), border_size) && final(self)@.last()
                == at_rest(old(self).next_id(), final(self)@.last().x, final(self)@.last().y),
            !old(self).has_room() ==> r is None && *final(self) == *old(self),
    {
        let x = coordinate_from_draw(random_bits(), border_size);
        let y = coordinate_from_draw(random_bits(), border_size);
        let r = self.spawn(x, y);
        assert(old(self)@.push(at_rest(old(self).next_id(), x, y)).take(old(self)@.len() as int) =~= old(
            self,
        )@);
        r
    }

    /// Adds up to `k` agents at random points of the box
    /// `[-border_size, border_size]`, and returns how many it added: `k`
    /// unless room ran out.
    pub fn spawn_many(&mut self, k: u64, border_size: i32) -> (r: u64)
        requires
            old(self).wf(),
            0 <= border_size <= MAX_BORDER,
        ensures
            final(self).wf(),
            r <= k,
            final(self)@.len() == old(self)@.len() + r,
            final(self)@.take(old(self)@.len() as int) == old(self)@,
            forall|i: int|
                old(self)@.len() <= i < final(self)@.len() ==> in_box(#[trigger] final(self)@[i], border_size),
            forall|i: int|
                old(self)@.len() <= i < final(self)@.len() ==> #[trigger] final(self)@[i] == at_rest(
                    (old(self).next_id() + (i - old(self)@.len())) as u64,
                    final(self)@[i].x,
                    final(self)@[i].y,
                ),
            final(self).next_id() == old(self).next_id() + r,
            (old(self)@.len() + k <= MAX_AGENTS && old(self).next_id() + k < u64::MAX) ==> r == k,
    {
        let ghost start = self@;
        let mut done: u64 = 0;
        while done < k
            invariant
                self.wf(),
                0 <= border_size <= MAX_BORDER,
                done <= k,
                self@.len() == start.len() + done,
                self.next_id() == old(self).next_id() + done,
                start == old(self)@,
                self@.take(start.len() as int) == start,
                forall|i: int| start.len() <= i < self@.len() ==> in_box(#[trigger] self@[i], border_size),
                forall|i: int|
                    start.len() <= i < self@.len() ==> #[trigger] self@[i] == at_rest(
                        (old(self).next_id() + (i - start.len())) as u64,
                        self@[i].x,
                        self@[i].y,
                    ),
            decreases k - done,
        {
            let ghost before = self@;
            match self.spawn_random(border_size) {
                Some(_) => {
                    proof {
                        assert(self@.take(start.len() as int) =~= before.take(start.len() as int));
                        assert forall|i: int| start.len() <= i < self@.len() implies in_box(
                            #[trigger] self@[i],
                            border_size,
                        ) by {
                            if i < before.len() {
                                assert(self@[i] == self@.take(before.len() as int)[i]);
                            }
                        }
                        assert forall|i: int| start.len() <= i < self@.len() implies #[trigger] self@[i]
                            == at_rest(
                            (old(self).next_id() + (i - start.len())) as u64,
                            self@[i].x,
                            self@[i].y,
                        ) by {
                            if i < before.len() {
                                assert(self@[i] == self@.take(before.len() as int)[i]);
                            }
                        }
                    }
                    done = done + 1;
                },
                None => {
                    return done;
                },
            }
        }
        done
    }

    /// Removes the agent with id `id`; `false`, with nothing changed, when there is none.
    pub fn remove(&mut self, id: u64) -> (r: bool)
        requires
            old(self).wf(),
        ensures
            final(self).wf(),
            final(self).next_id() == old(self).next_id(),
            r == exists|i: int| 0 <= i < old(self)@.len() && (#[trigger] old(self)@[i]).id == id,
            r ==> exists|i: int|
                0 <= i < old(self)@.len() && (#[trigger] old(self)@[i]).id == id && final(self)@ == old(
                    self,
                )@.remove(i),
            !r ==> *final(self) == *old(self),
    {
        match self.find(id) {
            Some(i) => {
                self.agents.remove(i);
                assert(self@ == old(self)@.remove(i as int));
                assert(old(self)@[i as int].id == id);
                true
            },
            None => false,
        }
    }

    /// Writes each update over the agent with the same id, skipping updates
    /// whose agent is gone; ids and order are kept.
    pub fn commit(&mut self, updates: &Vec<Agent>)
        requires
            old(self).wf(),
            all_wf(updates@),
        ensures
            final(self).wf(),
            final(self).next_id() == old(self).next_id(),
            final(self)@.len() == old(self)@.len(),
            forall|j: int| 0 <= j < old(self)@.len() ==> #[trigger] final(self)@[j] == committed(old(self)@[j], updates@),
    {
        let mut i: usize = 0;
        while i < updates.len()
            invariant
                self.wf(),
                all_wf(updates@),
                i <= updates@.len(),
                self.next_id() == old(self).next_id(),
                self@.len() == old(self)@.len(),
                forall|j: int| 0 <= j < self@.len() ==> (#[trigger] self@[j]).id == old(self)@[j].id,
                forall|j: int|
                    0 <= j < self@.len() ==> #[trigger] self@[j] == match last_update(updates@, old(self)@[j].id, i as int) {
                        Some(u) => u,
                        None => old(self)@[j],
                    },
            decreases updates@.len() - i,
        {
            let u = updates[i];
            let slot = if i < self.agents.len() && self.agents[i].id == u.id {
                Some(i)
            } else {
                self.find(u.id)
            };
            let ghost before = self@;
            if let Some(j) = slot {
                assert(self@[j as int] == self.agents@[j as int]);
                self.agents.set(j, u);
                proof {
                    assert forall|a: int, b: int|
                        0 <= a < self@.len() && 0 <= b < self@.len() && a != b implies (#[trigger] self@[a]).id
                        != (#[trigger] self@[b]).id by {
                        assert(before[a].id != before[b].id);
                    }
                    assert forall|m: int| 0 <= m < self@.len() implies (#[trigger] self@[m]).id < self.next_id() by {
                        assert(before[m].id < self.next_id());
                    }
                    assert forall|m: int| 0 <= m < self@.len() implies (#[trigger] self@[m]).wf() by {
                        assert(before[m].wf());
                        assert(updates@[i as int].wf());
                    }
                    assert forall|m: int| 0 <= m < self@.len() implies (#[trigger] self@[m]).id == old(self)@[m].id by {
                        assert(before[m].id == old(self)@[m].id);
                    }
                    assert forall|m: int| 0 <= m < self@.len() implies #[trigger] self@[m] == match last_update(updates@, old(self)@[m].id, i + 1) {
                        Some(u) => u,
                        None => old(self)@[m],
                    } by {
                        assert(before[m].id == old(self)@[m].id);
                        if m != j {
                            assert(before[m].id != before[j as int].id);
                        }
                    }
                }
            } else {
                proof {
                    assert forall|m: int| 0 <= m < self@.len() implies #[trigger] self@[m] == match last_update(updates@, old(self)@[m].id, i + 1) {
                        Some(u) => u,
                        None => old(self)@[m],
                    } by {
                        assert(before[m].id == old(self)@[m].id);
                    }
                }
            }
            i = i + 1;
        }
    }
}

} // verus!
