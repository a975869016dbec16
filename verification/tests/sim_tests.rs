use force_sim::center_force::CenterForce;
use force_sim::collide_force::CollideForce;
use force_sim::fixed::SCALE;
use force_sim::force::ForceKernel;
use force_sim::force_utils::{jiggle, JIGGLE_MAX};
use force_sim::link_force::LinkForce;
use force_sim::nbody_force::NBodyForce;
use force_sim::position_force::PositionForce;
use force_sim::radial_force::RadialForce;
use force_sim::simulation::Simulation;

fn coords_f64(sim: &Simulation<i32>, i: usize) -> (f64, f64) {
    let c = &sim.force_point_data[i].coord;
    (c[0] as f64 / SCALE as f64, c[1] as f64 / SCALE as f64)
}

#[test]
fn test_simulation_init() {
    let simulation: Simulation<i32> = Simulation::from_data(vec![1, 2, 3], 2);
    let c0 = &simulation.force_point_data[0].coord;
    assert_eq!(c0[0], 7_071_067_810);
    assert_eq!(c0[1], 0);
    let c1 = &simulation.force_point_data[1].coord;
    assert_eq!(c1[0], -9_030_887_513);
    assert_eq!(c1[1], 8_273_032_729);
    let c2 = &simulation.force_point_data[2].coord;
    assert_eq!(c2[0], 1_382_322_085);
    assert_eq!(c2[1], -15_750_847_126);
}

#[test]
fn test_nbody_force() {
    let mut simulation: Simulation<i32> = Simulation::from_data(vec![1, 2, 3], 2);
    simulation.add_force(
        String::from("n-body"),
        ForceKernel::NBody(NBodyForce::default()),
    );
    simulation.tick();

    let expected: [[i64; 2]; 3] = [
        [1_221_083_824, 543_856_760],
        [-1_131_454_198, 1_060_449_018],
        [-89_629_626, -1_604_305_778],
    ];
    for (index, data) in simulation.force_point_data.iter().enumerate() {
        let v = &data.velocity;
        assert!((v[0] - expected[index][0]).abs() <= 2_000, "v0[{}] = {}", index, v[0]);
        assert!((v[1] - expected[index][1]).abs() <= 2_000, "v1[{}] = {}", index, v[1]);
    }
}

#[test]
fn test_tick() {
    for node_num in [100i32, 1000, 10000] {
        let mut simulation: Simulation<i32> =
            Simulation::from_data(Vec::from_iter(0..node_num), 2);
        simulation.add_force(
            String::from("n-body"),
            ForceKernel::NBody(NBodyForce::default()),
        );
        simulation.tick();
    }
}

// Ticking with no registered forces leaves every position unchanged.
#[test]
fn integration_idempotence() {
    let mut sim: Simulation<i32> = Simulation::from_data(vec![1, 2, 3, 4], 2);
    let before: Vec<Vec<i64>> = sim
        .force_point_data
        .iter()
        .map(|p| p.coord.clone())
        .collect();
    for _ in 0..5 {
        sim.tick();
    }
    for (i, p) in sim.force_point_data.iter().enumerate() {
        assert_eq!(p.coord, before[i]);
    }
}

// A pinned record sits on its pin with zero velocity after any tick.
#[test]
fn pinned_point() {
    let mut sim: Simulation<i32> = Simulation::from_data(vec![1, 2, 3], 2);
    sim.force_point_data[1].fixed_position = Some(vec![5 * SCALE, -3 * SCALE]);
    sim.add_force(
        String::from("n-body"),
        ForceKernel::NBody(NBodyForce::default()),
    );
    for _ in 0..3 {
        sim.tick();
        let p = &sim.force_point_data[1];
        assert_eq!(p.coord, vec![5 * SCALE, -3 * SCALE]);
        assert_eq!(p.velocity, vec![0, 0]);
    }
}

// With the default parameters alpha strictly decreases toward zero.
#[test]
fn alpha_monotone() {
    let mut sim: Simulation<i32> = Simulation::from_data(vec![1, 2], 2);
    let mut last = sim.alpha;
    for _ in 0..50 {
        sim.tick();
        assert!(sim.alpha < last);
        assert!(sim.alpha >= sim.alpha_target);
        last = sim.alpha;
    }
}

// Two linked points settle at their rest distance.
#[test]
fn link_equilibrium() {
    let mut sim: Simulation<i32> = Simulation::from_data(vec![1, 2], 2);
    let link = LinkForce::new(vec![(0, 1)], vec![SCALE], vec![10 * SCALE], 1);
    sim.add_force(String::from("link"), ForceKernel::Link(link));
    for _ in 0..600 {
        sim.tick();
    }
    let (x0, y0) = coords_f64(&sim, 0);
    let (x1, y1) = coords_f64(&sim, 1);
    let dist = ((x0 - x1).powi(2) + (y0 - y1).powi(2)).sqrt();
    assert!((dist - 10.0).abs() < 1e-3, "separation {}", dist);
}

// The centering force moves the centroid onto the target at once.
#[test]
fn center_force_centers() {
    let mut sim: Simulation<i32> = Simulation::from_data(vec![1, 2, 3], 2);
    let center = CenterForce::new(vec![0, 0], SCALE);
    sim.add_force(String::from("center"), ForceKernel::Center(center));
    sim.tick();
    let sum_x: i64 = sim.force_point_data.iter().map(|p| p.coord[0]).sum();
    let sum_y: i64 = sim.force_point_data.iter().map(|p| p.coord[1]).sum();
    assert!(sum_x.abs() <= 3 && sum_y.abs() <= 3, "centroid ({}, {})", sum_x, sum_y);
}

// The positioning force pulls toward the per-point target.
#[test]
fn position_force_pulls() {
    let mut sim: Simulation<i32> = Simulation::from_data(vec![1], 2);
    assert!(sim.force_point_data[0].coord[0] > 0);
    let pf = PositionForce::new(
        vec![vec![Some(0), Some(0)]],
        vec![vec![Some(SCALE), Some(SCALE)]],
    );
    sim.add_force(String::from("position"), ForceKernel::Position(pf));
    sim.tick();
    assert!(sim.force_point_data[0].velocity[0] < 0);
}

// The radial force pushes a point inside the ring outward.
#[test]
fn radial_force_pushes_outward() {
    let mut sim: Simulation<i32> = Simulation::from_data(vec![1], 2);
    // the point sits about 7.07 units out; the ring has radius 10
    let rf = RadialForce::new(vec![10 * SCALE], vec![0, 0], vec![SCALE]);
    sim.add_force(String::from("radial"), ForceKernel::Radial(rf));
    sim.tick();
    assert!(sim.force_point_data[0].velocity[0] > 0);
}

// Two overlapping records push each other apart.
#[test]
fn collide_force_separates() {
    let mut sim: Simulation<i32> = Simulation::from_data(vec![1, 2], 2);
    sim.force_point_data[0].coord = vec![0, 0];
    sim.force_point_data[1].coord = vec![2 * SCALE, 0];
    let cf = CollideForce::new(vec![3 * SCALE / 2, 3 * SCALE / 2], SCALE, 1);
    sim.add_force(String::from("collide"), ForceKernel::Collide(cf));
    sim.tick();
    // record 0 is pushed left, record 1 right
    assert!(sim.force_point_data[0].velocity[0] < 0);
    assert!(sim.force_point_data[1].velocity[0] > 0);
}

// Replacing a kernel under a name keeps a single registration; removing
// returns it.
#[test]
fn add_and_remove_force() {
    let mut sim: Simulation<i32> = Simulation::from_data(vec![1, 2], 2);
    sim.add_force(
        String::from("center"),
        ForceKernel::Center(CenterForce::new(vec![0, 0], SCALE)),
    );
    sim.add_force(
        String::from("center"),
        ForceKernel::Center(CenterForce::new(vec![SCALE, SCALE], SCALE)),
    );
    assert_eq!(sim.forces.len(), 1);
    let removed = sim.remove_force(&String::from("center"));
    assert!(removed.is_some());
    assert_eq!(sim.forces.len(), 0);
    assert!(sim.remove_force(&String::from("center")).is_none());
}

// A one-dimensional simulation places records on a line.
#[test]
fn one_dimensional_init() {
    let sim: Simulation<i32> = Simulation::from_data(vec![1, 2, 3], 1);
    assert_eq!(sim.force_point_data[0].coord, vec![0]);
    assert_eq!(sim.force_point_data[1].coord, vec![10 * SCALE]);
    assert_eq!(sim.force_point_data[2].coord, vec![20 * SCALE]);
}

// The random jiggle stays within its stated bound.
#[test]
fn jiggle_bounds() {
    for _ in 0..1000 {
        let j = jiggle();
        assert!(-JIGGLE_MAX <= j && j <= JIGGLE_MAX);
    }
}
