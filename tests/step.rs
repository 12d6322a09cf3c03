use granular::config::StepConfig;
use granular::fixed::{ceil_sqrt, cell_of, clamp_wide, MAX_SIDE, UNIT};
use granular::particle::{clamp_to_domain, integrate, resolve_contact, Particle};
use granular::simulation::{boundary_pass, collision_pass, gravity_pass, rebucket, tick};
use granular::world::World;

fn still_config() -> StepConfig {
    let mut c = StepConfig::standard();
    c.gravity_y = 0;
    c
}

fn home(w: &World, p: &Particle) -> usize {
    cell_of(p.x, w.width) * w.height + cell_of(p.y, w.height)
}

fn assert_buckets(w: &World) {
    for (h, p) in w.particles.iter().enumerate() {
        assert!(w.cells[home(w, p)].contains(&h), "particle {} not in its cell", h);
    }
    for (c, cell) in w.cells.iter().enumerate() {
        for &h in cell {
            assert_eq!(home(w, &w.particles[h]), c);
        }
    }
}

#[test]
fn single_particle_falls_ten_sub_steps() {
    let mut w = World::new(30, 30).unwrap();
    w.add_particle(Particle::at_rest(5 * UNIT, 5 * UNIT)).unwrap();
    tick(&mut w, 100000, &StepConfig::standard());
    let p = w.particles[0];
    // per sub-step the displacement is 1928724 * 0.01 = 19287 units; velocity
    // carries forward, so the sub-steps add 1 + 2 + ... + 10 = 55 of them
    assert_eq!(p.y, 5 * UNIT + 19287 * 55);
    assert_eq!(p.x, 5 * UNIT);
    let expected = 5.0 + 9.81 * 3.0 * 0.01 * 55.0;
    let got = p.y as f64 / UNIT as f64;
    assert!((got - expected).abs() < 1e-3, "{} vs {}", got, expected);
    assert!(w.cells[5 * 30 + 21].contains(&0));
    assert!(w.cells[5 * 30 + 5].is_empty());
}

#[test]
fn particle_at_rest_without_gravity_stays() {
    let mut w = World::new(12, 12).unwrap();
    let start = Particle::at_rest(6 * UNIT + 123, 4 * UNIT + 777);
    w.add_particle(start).unwrap();
    for _ in 0..5 {
        tick(&mut w, 16667, &still_config());
    }
    assert_eq!(w.particles[0], start);
}

#[test]
fn far_apart_particles_at_rest_stay() {
    let mut w = World::new(12, 12).unwrap();
    let a = Particle::at_rest(3 * UNIT, 3 * UNIT);
    let b = Particle::at_rest(8 * UNIT, 8 * UNIT);
    w.add_particle(a).unwrap();
    w.add_particle(b).unwrap();
    tick(&mut w, 50000, &still_config());
    assert_eq!(w.particles[0], a);
    assert_eq!(w.particles[1], b);
}

#[test]
fn half_cell_overlap_resolution() {
    let c = StepConfig::standard();
    let a = Particle::at_rest(5 * UNIT, 5 * UNIT);
    let b = Particle::at_rest(5 * UNIT + UNIT / 2, 5 * UNIT);
    let (a2, b2) = resolve_contact(a, b, &c);
    // distance 0.5: each moves 0.5 * 0.5 * 0.75 * 0.5 = 0.09375 cells = 6144 units
    assert_eq!(a2.x, 5 * UNIT - 6144);
    assert_eq!(b2.x, 5 * UNIT + UNIT / 2 + 6144);
    assert_eq!(a2.y, a.y);
    assert_eq!(b2.y, b.y);
    assert_eq!((a2.x - a.x) + (b2.x - b.x), 0);
    assert_eq!(a2.px, a.px);
    assert_eq!(b2.ax, b.ax);
}

#[test]
fn diagonal_overlap_is_symmetric_and_approaches_minimum() {
    let c = StepConfig::standard();
    let a = Particle::at_rest(7 * UNIT + 1000, 7 * UNIT + 2000);
    let b = Particle::at_rest(7 * UNIT + 21000, 7 * UNIT + 31000);
    let (a2, b2) = resolve_contact(a, b, &c);
    assert_eq!((a2.x - a.x) + (b2.x - b.x), 0);
    assert_eq!((a2.y - a.y) + (b2.y - b.y), 0);
    let d0 = ((a.x - b.x) as i128).pow(2) + ((a.y - b.y) as i128).pow(2);
    let d1 = ((a2.x - b2.x) as i128).pow(2) + ((a2.y - b2.y) as i128).pow(2);
    let m2 = (UNIT as i128) * (UNIT as i128);
    assert!(d0 < d1, "{} {}", d0, d1);
    assert!(d1 <= m2);
}

#[test]
fn coincident_particles_are_left_alone() {
    let c = StepConfig::standard();
    let a = Particle::at_rest(4 * UNIT, 4 * UNIT);
    let (a2, b2) = resolve_contact(a, a, &c);
    assert_eq!(a2, a);
    assert_eq!(b2, a);
}

#[test]
fn separated_particles_are_left_alone() {
    let c = StepConfig::standard();
    let a = Particle::at_rest(4 * UNIT, 4 * UNIT);
    let b = Particle::at_rest(5 * UNIT, 4 * UNIT);
    assert_eq!(resolve_contact(a, b, &c), (a, b));
}

#[test]
fn boundary_clamps_into_domain() {
    let mut p = Particle::at_rest(-500, 40 * UNIT);
    clamp_to_domain(&mut p, 10, 20);
    assert_eq!(p.x, 0);
    assert_eq!(p.y, 19 * UNIT);
    let mut q = Particle::at_rest(11 * UNIT, -3);
    clamp_to_domain(&mut q, 10, 20);
    assert_eq!(q.x, 9 * UNIT);
    assert_eq!(q.y, 0);
}

#[test]
fn fast_particle_is_contained_and_rebucketed() {
    let mut w = World::new(8, 8).unwrap();
    let mut p = Particle::at_rest(6 * UNIT, 6 * UNIT);
    p.px = 2 * UNIT;
    p.py = 6 * UNIT;
    w.add_particle(p).unwrap();
    tick(&mut w, 100000, &still_config());
    let q = w.particles[0];
    assert!(q.px >= 0 && q.px <= 7 * UNIT);
    assert!(q.py >= 0 && q.py <= 7 * UNIT);
    assert_buckets(&w);
}

#[test]
fn integration_moves_by_velocity_and_acceleration() {
    let mut p = Particle { x: 100, y: 200, px: 90, py: 200, ax: 1000, ay: -1000 };
    // sub-step of 1/10 s: displacement 1000 * 0.01 = 10
    integrate(&mut p, 1, 10);
    assert_eq!(p, Particle { x: 120, y: 190, px: 100, py: 200, ax: 0, ay: 0 });
}

#[test]
fn many_particles_keep_buckets_consistent() {
    let mut w = World::new(10, 10).unwrap();
    let mut k: i64 = 0;
    for i in 0..6 {
        for j in 0..6 {
            k += 1;
            let x = 2 * UNIT + i * (UNIT / 2) + (k * 97) % 500;
            let y = 2 * UNIT + j * (UNIT / 2) + (k * 31) % 700;
            w.add_particle(Particle::at_rest(x, y)).unwrap();
        }
    }
    assert_buckets(&w);
    for _ in 0..20 {
        tick(&mut w, 16667, &StepConfig::standard());
        assert_buckets(&w);
        for p in &w.particles {
            assert!(p.px >= 0 && p.px <= 9 * UNIT && p.py >= 0 && p.py <= 9 * UNIT);
        }
    }
}

fn sample_world() -> World {
    let mut w = World::new(9, 9).unwrap();
    w.add_particle(Particle::at_rest(4 * UNIT, 4 * UNIT)).unwrap();
    w.add_particle(Particle::at_rest(4 * UNIT + 20000, 4 * UNIT + 9000)).unwrap();
    w.add_particle(Particle::at_rest(5 * UNIT + 3000, 4 * UNIT + 50000)).unwrap();
    w.add_particle(Particle::at_rest(2 * UNIT, 7 * UNIT)).unwrap();
    w
}

#[test]
fn tick_is_deterministic() {
    let mut a = sample_world();
    let mut b = sample_world();
    tick(&mut a, 33333, &StepConfig::standard());
    tick(&mut b, 33333, &StepConfig::standard());
    assert_eq!(a.particles, b.particles);
    assert_eq!(a.cells, b.cells);
}

#[test]
fn zero_elapsed_counts_as_one() {
    let mut a = sample_world();
    let mut b = sample_world();
    tick(&mut a, 0, &StepConfig::standard());
    tick(&mut b, 1, &StepConfig::standard());
    assert_eq!(a.particles, b.particles);
}

#[test]
fn overlapping_pair_separates_in_collision_pass() {
    let mut w = World::new(9, 9).unwrap();
    w.add_particle(Particle::at_rest(4 * UNIT, 4 * UNIT + 100)).unwrap();
    w.add_particle(Particle::at_rest(4 * UNIT + UNIT / 2, 4 * UNIT + 100)).unwrap();
    let before = w.particles.clone();
    collision_pass(&mut w, &StepConfig::standard());
    let dx0 = before[0].x - w.particles[0].x;
    let dx1 = w.particles[1].x - before[1].x;
    assert!(dx0 > 0);
    assert_eq!(dx0, dx1);
    // both lie in cell (4, 4), which lies in nine interior blocks; each block
    // resolves the pair once more
    assert!(dx0 > 6144);
}

#[test]
fn border_cells_are_not_collision_centres() {
    // a 2 by 2 grid has no interior cell, so nothing collides
    let mut w = World::new(2, 2).unwrap();
    let a = Particle::at_rest(UNIT / 4, UNIT / 4);
    let b = Particle::at_rest(UNIT / 2, UNIT / 4);
    w.add_particle(a).unwrap();
    w.add_particle(b).unwrap();
    collision_pass(&mut w, &StepConfig::standard());
    assert_eq!(w.particles[0], a);
    assert_eq!(w.particles[1], b);
}

#[test]
fn gravity_and_boundary_passes() {
    let mut w = World::new(4, 4).unwrap();
    w.add_particle(Particle::at_rest(UNIT, UNIT)).unwrap();
    gravity_pass(&mut w, 7, -9);
    assert_eq!(w.particles[0].ax, 7);
    assert_eq!(w.particles[0].ay, -9);
    w.particles[0].x = -5;
    w.particles[0].y = 10 * UNIT;
    boundary_pass(&mut w);
    assert_eq!(w.particles[0].x, 0);
    assert_eq!(w.particles[0].y, 3 * UNIT);
}

#[test]
fn rebucket_moves_departed_particles_after_the_traversal() {
    let mut w = World::new(3, 3).unwrap();
    w.add_particle(Particle::at_rest(0, 0)).unwrap();
    w.add_particle(Particle::at_rest(UNIT, 0)).unwrap();
    w.add_particle(Particle::at_rest(10, 20)).unwrap();
    // move particle 0 into cell (1, 0), where particle 1 already is
    w.particles[0].x = UNIT + 5;
    rebucket(&mut w);
    assert_eq!(w.cells[0], vec![2]);
    assert_eq!(w.cells[3], vec![1, 0]);
    assert_buckets(&w);
}

#[test]
fn neighborhood_lists_block_row_by_row() {
    let mut w = World::new(4, 4).unwrap();
    let h0 = w.add_particle(Particle::at_rest(2 * UNIT, 2 * UNIT)).unwrap();
    let h1 = w.add_particle(Particle::at_rest(0, 0)).unwrap();
    let h2 = w.add_particle(Particle::at_rest(UNIT, 2 * UNIT)).unwrap();
    let h3 = w.add_particle(Particle::at_rest(3 * UNIT, 3 * UNIT)).unwrap();
    assert_eq!(w.neighborhood(1, 1), vec![h1, h2, h0]);
    assert_eq!(w.neighborhood(2, 2), vec![h2, h0, h3]);
}

#[test]
fn world_new_rejects_bad_sizes() {
    assert!(World::new(0, 4).is_none());
    assert!(World::new(4, 0).is_none());
    assert!(World::new(MAX_SIDE + 1, 1).is_none());
    let w = World::new(3, 5).unwrap();
    assert_eq!(w.cells.len(), 15);
    assert!(w.particles.is_empty());
}

#[test]
fn add_particle_rejects_outside_grid() {
    let mut w = World::new(3, 3).unwrap();
    assert_eq!(w.add_particle(Particle::at_rest(-1, 0)), None);
    assert_eq!(w.add_particle(Particle::at_rest(3 * UNIT, 0)), None);
    assert_eq!(w.add_particle(Particle::at_rest(0, 3 * UNIT)), None);
    let mut moving = Particle::at_rest(0, 0);
    moving.ax = 1;
    assert_eq!(w.add_particle(moving), None);
    assert!(w.particles.is_empty());
    assert_eq!(w.add_particle(Particle::at_rest(3 * UNIT - 1, 0)), Some(0));
    assert_eq!(w.cells[2 * 3], vec![0]);
}

#[test]
fn cell_of_floors_and_clamps() {
    assert_eq!(cell_of(-1, 5), 0);
    assert_eq!(cell_of(0, 5), 0);
    assert_eq!(cell_of(UNIT - 1, 5), 0);
    assert_eq!(cell_of(UNIT, 5), 1);
    assert_eq!(cell_of(5 * UNIT, 5), 4);
    assert_eq!(cell_of(100 * UNIT, 5), 4);
}

#[test]
fn ceil_sqrt_rounds_up() {
    assert_eq!(ceil_sqrt(0), 0);
    assert_eq!(ceil_sqrt(1), 1);
    assert_eq!(ceil_sqrt(2), 2);
    assert_eq!(ceil_sqrt(4), 2);
    assert_eq!(ceil_sqrt(5), 3);
    assert_eq!(ceil_sqrt(1 << 30), 1 << 15);
    assert_eq!(ceil_sqrt((1 << 30) + 1), (1 << 15) + 1);
}

#[test]
fn clamp_wide_limits() {
    assert_eq!(clamp_wide(-10, -3, 3), -3);
    assert_eq!(clamp_wide(10, -3, 3), 3);
    assert_eq!(clamp_wide(2, -3, 3), 2);
}

#[test]
fn standard_config_values() {
    let c = StepConfig::standard();
    assert_eq!(c.sub_steps, 10);
    assert_eq!(c.time_scale, 100000);
    assert_eq!(c.response_num * 4, c.response_den * 3);
    assert_eq!(c.min_dist, UNIT);
}

#[test]
fn config_validity() {
    assert!(StepConfig::standard().is_valid());
    let mut c = StepConfig::standard();
    c.sub_steps = 0;
    assert!(!c.is_valid());
    let mut c = StepConfig::standard();
    c.response_num = 9;
    assert!(!c.is_valid());
    let mut c = StepConfig::standard();
    c.response_num = 8;
    assert!(c.is_valid());
    let mut c = StepConfig::standard();
    c.min_dist = 0;
    assert!(!c.is_valid());
}

#[test]
fn zero_gravity_config_is_valid() {
    assert!(still_config().is_valid());
}
