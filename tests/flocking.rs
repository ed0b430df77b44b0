use boids::arith::{ceil_sqrt_u128, div_toward_zero};
use boids::display::flock_hue;
use boids::model::{Agent, SimulationConfig, UNIT};
use boids::population::{coordinate_from_draw, Population};
use boids::rules::advance_agent;
use boids::spatial::SpatialIndex;
use boids::step::{step_agents, tick, Simulation};

fn quiet_config() -> SimulationConfig {
    let mut c = SimulationConfig::standard();
    c.separation = false;
    c.alignment = false;
    c.cohesion = false;
    c.border = false;
    c.speed_limit = false;
    c
}

fn agent(id: u64, x: i64, y: i64) -> Agent {
    Agent { id, x, y, vx: 0, vy: 0, neighbor_count: 0 }
}

#[test]
fn three_agents_scenario() {
    let mut pop = Population::new();
    pop.spawn(0, 0).unwrap();
    pop.spawn(UNIT, 0).unwrap();
    pop.spawn(100 * UNIT, 100 * UNIT).unwrap();
    let mut cfg = SimulationConfig::standard();
    cfg.visibility_range = 5 * UNIT as u64;
    cfg.border = false;
    cfg.speed_limit = false;
    tick(&mut pop, &cfg, false);
    let a = pop.agents();
    assert_eq!(a[2].neighbor_count, 0);
    assert_eq!((a[2].vx, a[2].vy), (0, 0));
    assert_eq!((a[2].x, a[2].y), (100 * UNIT, 100 * UNIT));
    assert_eq!(a[0].neighbor_count, 1);
    assert_eq!(a[1].neighbor_count, 1);
    assert_eq!((a[0].vx, a[0].vy), (-50_000, 0));
    assert_eq!((a[1].vx, a[1].vy), (49_500, 0));
    assert_eq!(a[0].x, -50_000);
    assert_eq!(a[1].x, UNIT + 49_500);
}

#[test]
fn border_pushes_back_by_impact() {
    let mut pop = Population::new();
    pop.spawn(15 * UNIT, 0).unwrap();
    let mut cfg = quiet_config();
    cfg.border = true;
    cfg.border_size = 10;
    tick(&mut pop, &cfg, false);
    let a = pop.agents()[0];
    assert_eq!(a.vx, -(cfg.border_impact as i64));
    assert_eq!(a.vy, 0);
    assert_eq!(a.x, 15 * UNIT - cfg.border_impact as i64);
}

#[test]
fn border_corner_fires_both_axes() {
    let mut pop = Population::new();
    pop.spawn(-20 * UNIT, 20 * UNIT).unwrap();
    let mut cfg = quiet_config();
    cfg.border = true;
    cfg.border_size = 10;
    tick(&mut pop, &cfg, false);
    let a = pop.agents()[0];
    assert_eq!((a.vx, a.vy), (20_000, -20_000));
}

#[test]
fn paused_tick_changes_nothing() {
    let mut pop = Population::new();
    pop.spawn(0, 0).unwrap();
    pop.spawn(UNIT, UNIT).unwrap();
    let cfg = SimulationConfig::standard();
    let before = pop.agents().clone();
    for _ in 0..5 {
        tick(&mut pop, &cfg, true);
    }
    assert_eq!(pop.agents(), &before);
}

#[test]
fn spawning_adds_exactly_k_inside_the_box() {
    let mut pop = Population::new();
    pop.spawn(0, 0).unwrap();
    let n = pop.spawn_many(250, 50);
    assert_eq!(n, 250);
    assert_eq!(pop.count(), 251);
    for a in &pop.agents()[1..] {
        assert!(a.x >= -50 * UNIT && a.x <= 50 * UNIT);
        assert!(a.y >= -50 * UNIT && a.y <= 50 * UNIT);
        assert_eq!((a.vx, a.vy), (0, 0));
        assert_eq!(a.neighbor_count, 0);
    }
    let mut ids: Vec<u64> = pop.agents().iter().map(|a| a.id).collect();
    ids.dedup();
    assert_eq!(ids.len(), 251);
}

#[test]
fn remove_and_get_by_id() {
    let mut pop = Population::new();
    let a = pop.spawn(0, 0).unwrap();
    let b = pop.spawn(5, 5).unwrap();
    assert!(pop.remove(a));
    assert!(!pop.remove(a));
    assert_eq!(pop.count(), 1);
    assert!(pop.get(a).is_none());
    assert_eq!(pop.get(b).unwrap().x, 5);
}

#[test]
fn commit_skips_missing_ids() {
    let mut pop = Population::new();
    let a = pop.spawn(0, 0).unwrap();
    let b = pop.spawn(1, 1).unwrap();
    let updates = vec![
        Agent { id: b, x: 9, y: 9, vx: 1, vy: 1, neighbor_count: 3 },
        Agent { id: 77, x: 4, y: 4, vx: 0, vy: 0, neighbor_count: 0 },
    ];
    pop.commit(&updates);
    assert_eq!(pop.get(a).unwrap(), agent(a, 0, 0));
    assert_eq!(pop.get(b).unwrap(), updates[0]);
    assert_eq!(pop.count(), 2);
}

#[test]
fn query_finds_exactly_the_agents_in_range() {
    let agents = vec![
        agent(0, 30, 0),
        agent(1, -40, 0),
        agent(2, 0, 50),
        agent(3, 0, 51),
        agent(4, 36, 36),
        agent(5, -1000, 0),
        agent(6, 0, 0),
    ];
    let index = SpatialIndex::build(&agents);
    let mut found = index.query_within(&agents, 0, 0, 50);
    found.sort();
    assert_eq!(found, vec![0, 1, 2, 6]);
    assert!(index.query_within(&agents, 0, 0, 0) == vec![6]);
    let empty: Vec<Agent> = Vec::new();
    let index = SpatialIndex::build(&empty);
    assert!(index.query_within(&empty, 0, 0, 10).is_empty());
}

#[test]
fn rules_read_the_snapshot_only() {
    let snap = vec![agent(0, 0, 0), agent(1, UNIT, 0)];
    let mut cfg = quiet_config();
    cfg.separation = true;
    let next = step_agents(&snap, &cfg);
    assert_eq!(next[0].vx, -50_000);
    // With cohesion off its sum stays zero, so the pull is toward the origin.
    assert_eq!(next[1].vx, 49_500);
    assert_eq!(snap[1].x, UNIT);
}

#[test]
fn accuracy_caps_processed_neighbours() {
    let snap = vec![agent(0, 0, 0), agent(1, 3 * UNIT, 0), agent(2, 4 * UNIT, 0)];
    let mut cfg = quiet_config();
    cfg.cohesion = true;
    cfg.accuracy = 1;
    let r = advance_agent(&snap, snap[0], &vec![1, 2], &cfg);
    assert_eq!(r.neighbor_count, 2);
    // (3 * UNIT - 2 * 0) * 500 / (2 * PPM)
    assert_eq!(r.vx, 750);
    cfg.accuracy = 2;
    let r = advance_agent(&snap, snap[0], &vec![1, 2], &cfg);
    assert_eq!(r.vx, 1750);
}

#[test]
fn alignment_pulls_toward_average_velocity() {
    let mut b = agent(1, UNIT, 0);
    b.vx = 100_000;
    let snap = vec![agent(0, 0, 0), b];
    let mut cfg = quiet_config();
    cfg.alignment = true;
    let r = advance_agent(&snap, snap[0], &vec![1], &cfg);
    assert_eq!(r.vx, 5_000);
    assert_eq!(r.x, 5_000);
}

#[test]
fn speed_limit_rescales() {
    let mut cfg = quiet_config();
    cfg.speed_limit = true;
    cfg.min_speed = 100_000;
    cfg.max_speed = 200_000;
    let mut fast = agent(0, 0, 0);
    fast.vx = 300_000;
    fast.vy = 400_000;
    let r = advance_agent(&vec![fast], fast, &vec![], &cfg);
    assert_eq!((r.vx, r.vy), (120_000, 160_000));
    let mut slow = agent(0, 0, 0);
    slow.vx = 3_000;
    slow.vy = 4_000;
    let r = advance_agent(&vec![slow], slow, &vec![], &cfg);
    assert_eq!((r.vx, r.vy), (60_000, 80_000));
    let still = agent(0, 0, 0);
    let r = advance_agent(&vec![still], still, &vec![], &cfg);
    assert_eq!((r.vx, r.vy), (0, 0));
}

#[test]
fn speed_stays_below_max_after_ticks() {
    let mut pop = Population::new();
    pop.spawn_many(60, 5);
    let mut cfg = SimulationConfig::standard();
    cfg.min_speed = 100_000;
    for _ in 0..10 {
        tick(&mut pop, &cfg, false);
    }
    for a in pop.agents() {
        let q = (a.vx as i128) * (a.vx as i128) + (a.vy as i128) * (a.vy as i128);
        assert!(q <= (cfg.max_speed as i128) * (cfg.max_speed as i128));
    }
}

#[test]
fn coordinates_from_draws() {
    assert_eq!(coordinate_from_draw(0, 10), -10 * UNIT);
    assert_eq!(coordinate_from_draw(u64::MAX, 10), 10 * UNIT);
    assert_eq!(coordinate_from_draw(1u64 << 63, 10), 0);
    assert_eq!(coordinate_from_draw(12345, 0), 0);
}

#[test]
fn hue_grows_with_flock_then_saturates() {
    assert_eq!(flock_hue(0), 0);
    assert_eq!(flock_hue(7), 35);
    assert_eq!(flock_hue(28), 140);
    assert_eq!(flock_hue(1000), 140);
}

#[test]
fn integer_helpers() {
    assert_eq!(ceil_sqrt_u128(0), 0);
    assert_eq!(ceil_sqrt_u128(16), 4);
    assert_eq!(ceil_sqrt_u128(17), 5);
    assert_eq!(ceil_sqrt_u128(250_000_000_000), 500_000);
    assert_eq!(div_toward_zero(-7, 2), -3);
    assert_eq!(div_toward_zero(7, 2), 3);
}

#[test]
fn simulation_starts_paused_and_toggles() {
    let mut sim = Simulation::new(SimulationConfig::standard());
    assert!(sim.paused());
    assert_eq!(sim.spawn(40), 40);
    let before = sim.population().agents().clone();
    sim.step();
    assert_eq!(sim.population().agents(), &before);
    sim.toggle_pause();
    assert!(!sim.paused());
    sim.step();
    assert_ne!(sim.population().agents(), &before);
    assert_eq!(sim.population().count(), 40);
    for a in sim.population().agents() {
        assert!(a.neighbor_count < 40);
    }
}

#[test]
fn query_finds_agent_listed_after_a_far_one() {
    let agents = vec![agent(0, 1000, 0), agent(1, 0, 0), agent(2, 5, 0)];
    let index = SpatialIndex::build(&agents);
    let mut found = index.query_within(&agents, 0, 0, 10);
    found.sort();
    assert_eq!(found, vec![1, 2]);
}

#[test]
fn query_matches_a_full_scan() {
    let mut pop = Population::new();
    pop.spawn_many(200, 20);
    let agents = pop.agents().clone();
    let index = SpatialIndex::build(&agents);
    let r: i128 = 4 * UNIT as i128;
    for a in &agents {
        let mut found = index.query_within(&agents, a.x, a.y, r as u64);
        found.sort();
        let expected: Vec<usize> = (0..agents.len())
            .filter(|&j| {
                let dx = (agents[j].x - a.x) as i128;
                let dy = (agents[j].y - a.y) as i128;
                dx * dx + dy * dy <= r * r
            })
            .collect();
        assert_eq!(found, expected);
    }
}

#[test]
fn slow_agent_reaches_min_speed() {
    let mut cfg = quiet_config();
    cfg.speed_limit = true;
    cfg.min_speed = 300_000;
    cfg.max_speed = 400_000;
    let mut slow = agent(0, 0, 0);
    slow.vx = 1;
    slow.vy = 1;
    let r = advance_agent(&vec![slow], slow, &vec![], &cfg);
    assert_eq!(r.vx, r.vy);
    let q = (r.vx as i128) * (r.vx as i128) + (r.vy as i128) * (r.vy as i128);
    assert!(q <= 400_000i128 * 400_000);
    assert!(q >= 299_998i128 * 299_998);
}

#[test]
fn far_agent_does_not_affect_update() {
    let cfg = SimulationConfig::standard();
    let mut near = agent(1, 2 * UNIT, UNIT);
    near.vx = 100_000;
    let far_a = agent(2, 40 * UNIT, 0);
    let mut far_b = agent(2, -30 * UNIT, 25 * UNIT);
    far_b.vx = -300_000;
    let first = step_agents(&vec![agent(0, 0, 0), near, far_a], &cfg);
    let second = step_agents(&vec![agent(0, 0, 0), near, far_b], &cfg);
    assert_eq!(first[0], second[0]);
    assert_eq!(first[1], second[1]);
    assert_eq!(first[0].neighbor_count, 1);
}
