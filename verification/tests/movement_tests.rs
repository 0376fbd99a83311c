use osrssg::grid::{Pos3, Cell, dist_sq_xz};
use osrssg::unit::Unit;
use osrssg::movement::{SimConfig, Obstacle, MoveOutcome, move_unit_step, maintain_ground_clearance};
use osrssg::arbitration::{MoveRequest, arbitrate, generate_formation_alternatives};
use osrssg::orders::{calculate_formation_position, find_closest_adjacent_tile, handle_movement_command};
use osrssg::world::{World, move_units};

fn p(x: i64, y: i64, z: i64) -> Pos3 {
    Pos3 { x, y, z }
}

#[test]
fn contested_cell_goes_to_one_unit_and_a_neighbour_to_the_other() {
    // Two units, neither primary, both ordered to cell (5, 5): one ends
    // on the exact cell, the other one cardinal cell away, both stopped.
    let cfg = SimConfig::standard();
    let mut world = World {
        units: vec![Unit::new(p(0, 100, 0), 300), Unit::new(p(1000, 100, 0), 300)],
        nodes: Vec::new(),
        obstacles: Vec::new(),
        config: cfg,
    };
    world.units[0].order_move(p(5000, 100, 5000), false);
    world.units[1].order_move(p(5000, 100, 5000), false);
    for _ in 0..60 {
        world.tick(250);
    }
    assert!(!world.units[0].moving && !world.units[1].moving);
    assert!(world.units[0].dest.is_none() && world.units[1].dest.is_none());
    let a = world.units[0].pos;
    let b = world.units[1].pos;
    assert_ne!((a.x, a.z), (b.x, b.z));
    // The nearer unit won the exact target; the other took the cardinal
    // neighbour closest to its own position.
    assert_eq!((b.x, b.z), (5000, 5000));
    assert_eq!((a.x, a.z), (4000, 5000));
    assert_eq!(dist_sq_xz(a, b), 1_000_000);
}

#[test]
fn arbitration_gives_the_primary_unit_the_exact_target() {
    let reqs = vec![
        MoveRequest { pos: p(0, 100, 0), target: p(5000, 100, 5000), primary: false },
        MoveRequest { pos: p(4000, 100, 4000), target: p(5000, 100, 5000), primary: true },
    ];
    let occupied: Vec<Cell> = Vec::new();
    let assigned = arbitrate(&reqs, &occupied);
    assert_eq!(assigned.len(), 2);
    assert!(assigned[1].claimed);
    assert_eq!((assigned[1].cell.cx, assigned[1].cell.cz), (5, 5));
    assert!(assigned[0].claimed);
    assert_ne!((assigned[0].cell.cx, assigned[0].cell.cz), (5, 5));
}

#[test]
fn arbitration_avoids_stationary_cells() {
    let reqs = vec![MoveRequest { pos: p(0, 100, 0), target: p(2000, 100, 0), primary: false }];
    let occupied = vec![Cell { cx: 2, cz: 0 }];
    let assigned = arbitrate(&reqs, &occupied);
    assert!(assigned[0].claimed);
    assert_ne!((assigned[0].cell.cx, assigned[0].cell.cz), (2, 0));
}

#[test]
fn alternatives_probe_the_nearest_ring_first() {
    let alts = generate_formation_alternatives(Cell { cx: 5, cz: 5 }, Cell { cx: 0, cz: 0 });
    assert_eq!(alts.len(), 20);
    // The four cardinal neighbours come first, ordered toward the unit.
    for k in 0..4 {
        let dx = (alts[k].cx - 5).abs();
        let dz = (alts[k].cz - 5).abs();
        assert_eq!(dx + dz, 1);
    }
    assert_eq!((alts[0].cx, alts[0].cz), (4, 5));
    // Then the diagonal ring-one cells.
    for k in 4..8 {
        let dx = (alts[k].cx - 5).abs();
        let dz = (alts[k].cz - 5).abs();
        assert_eq!((dx, dz), (1, 1));
    }
}

#[test]
fn unobstructed_unit_arrives_and_clears_its_order() {
    let cfg = SimConfig::standard();
    let mut units = vec![Unit::new(p(0, 100, 0), 300)];
    units[0].order_move(p(3000, 100, 0), false);
    let obstacles: Vec<Obstacle> = Vec::new();
    let mut arrived = false;
    for _ in 0..40 {
        let outcomes = move_units(&mut units, &obstacles, 100, &cfg);
        if outcomes[0] == MoveOutcome::Arrived {
            arrived = true;
            break;
        }
    }
    assert!(arrived);
    assert_eq!((units[0].pos.x, units[0].pos.z), (3000, 0));
    assert!(!units[0].moving);
    assert!(units[0].dest.is_none());
    assert_eq!(units[0].stuck_ms, 0);
}

#[test]
fn blocked_unit_never_enters_the_obstacle_and_cancels_when_stuck() {
    // Ordered into an obstacle's footprint, the unit is deflected, never
    // comes within the radius sum, and after the stuck threshold its
    // order is cancelled in place.
    let cfg = SimConfig::standard();
    let ob = Obstacle { pos: p(3000, 100, 0), size_x: 800, size_y: 500, size_z: 800 };
    let rsum = 300 + 400;
    let mut units = vec![Unit::new(p(0, 100, 0), 300)];
    units[0].order_move(p(3000, 100, 0), false);
    let obstacles = vec![ob];
    let mut cancelled = false;
    for _ in 0..60 {
        let outcomes = move_units(&mut units, &obstacles, 100, &cfg);
        assert!(dist_sq_xz(units[0].pos, ob.pos) >= rsum * rsum);
        if outcomes[0] == MoveOutcome::Cancelled {
            cancelled = true;
            break;
        }
    }
    assert!(cancelled);
    assert!(!units[0].moving);
    assert!(units[0].dest.is_none());
    assert_eq!(units[0].stuck_ms, 0);
}

#[test]
fn move_step_reports_progress_every_unobstructed_tick() {
    let cfg = SimConfig::standard();
    let mut u = Unit::new(p(0, 100, 0), 300);
    u.order_move(p(9000, 100, 0), false);
    let obstacles: Vec<Obstacle> = Vec::new();
    let others = Vec::new();
    let d0 = dist_sq_xz(u.pos, p(9000, 100, 0));
    let r = move_unit_step(&mut u, Cell { cx: 9, cz: 0 }, &obstacles, &others, 100, &cfg);
    assert_eq!(r, MoveOutcome::Moved);
    let d1 = dist_sq_xz(u.pos, p(9000, 100, 0));
    assert!(d1 < d0);
    assert_eq!(u.pos.x, 200);
    assert_eq!(u.stuck_ms, 0);
}

#[test]
fn formation_positions_spread_around_the_target() {
    let base = p(5000, 100, 5000);
    assert_eq!(calculate_formation_position(base, 0, 5), base);
    let second = calculate_formation_position(base, 1, 5);
    assert_eq!((second.x, second.z), (6000, 5000));
    let third = calculate_formation_position(base, 2, 5);
    assert_eq!((third.x, third.z), (4000, 5000));
}

#[test]
fn movement_command_orders_the_whole_selection() {
    let mut units = vec![
        Unit::new(p(0, 100, 0), 300),
        Unit::new(p(1000, 100, 0), 300),
        Unit::new(p(2000, 100, 0), 300),
    ];
    let selected = vec![0usize, 2usize];
    handle_movement_command(&mut units, &selected, p(5000, 100, 5000));
    assert!(units[0].moving && units[2].moving);
    assert!(units[0].primary);
    assert!(!units[2].primary);
    assert_eq!(units[0].dest.unwrap().x, 5000);
    assert_eq!(units[2].dest.unwrap().x, 6000);
    // The unselected unit is untouched.
    assert!(!units[1].moving);
    assert!(units[1].dest.is_none());
}

#[test]
fn single_unit_command_goes_to_the_exact_point() {
    let mut units = vec![Unit::new(p(0, 100, 0), 300)];
    let selected = vec![0usize];
    handle_movement_command(&mut units, &selected, p(4321, 100, -1234));
    assert!(!units[0].primary);
    let d = units[0].dest.unwrap();
    assert_eq!((d.x, d.z), (4321, -1234));
}

#[test]
fn closest_adjacent_tile_faces_the_caller() {
    let tile = find_closest_adjacent_tile(p(3000, 100, 0), p(0, 100, 0));
    assert_eq!((tile.x, tile.z), (2000, 0));
    let tile2 = find_closest_adjacent_tile(p(3000, 100, 0), p(3000, 100, 9000));
    assert_eq!((tile2.x, tile2.z), (3000, 1000));
}

#[test]
fn ground_clearance_lifts_sunken_units() {
    let mut units = vec![Unit::new(p(0, 0, 0), 300), Unit::new(p(0, 4000, 0), 300)];
    units[0].pos = p(0, 20, 0);
    maintain_ground_clearance(&mut units);
    assert_eq!(units[0].pos.y, 100);
    assert_eq!(units[1].pos.y, 4000);
}

#[test]
fn arbitration_with_no_moving_units_does_nothing() {
    let reqs: Vec<MoveRequest> = Vec::new();
    let occupied = vec![Cell { cx: 1, cz: 1 }];
    let assigned = arbitrate(&reqs, &occupied);
    assert!(assigned.is_empty());
}

#[test]
fn arbitration_with_everything_taken_keeps_the_unit_in_place() {
    // The target cell and its whole probe neighbourhood are occupied:
    // the unit is assigned its own current cell and stays put.
    let mut occupied = Vec::new();
    for dx in -2i64..=2 {
        for dz in -2i64..=2 {
            if !(dx.abs() == 2 && dz.abs() == 2) {
                occupied.push(Cell { cx: 5 + dx, cz: 5 + dz });
            }
        }
    }
    let reqs = vec![MoveRequest { pos: p(0, 100, 0), target: p(5000, 100, 5000), primary: false }];
    let assigned = arbitrate(&reqs, &occupied);
    assert!(!assigned[0].claimed);
    assert_eq!((assigned[0].cell.cx, assigned[0].cell.cz), (0, 0));
}

#[test]
fn movement_sets_the_heading_and_arrival_keeps_it() {
    let cfg = SimConfig::standard();
    let mut u = Unit::new(p(0, 100, 0), 300);
    u.order_move(p(3000, 100, 4000), false);
    let obstacles: Vec<Obstacle> = Vec::new();
    let others = Vec::new();
    let r = move_unit_step(&mut u, Cell { cx: 3, cz: 4 }, &obstacles, &others, 100, &cfg);
    assert_eq!(r, MoveOutcome::Moved);
    // The unit faces its direction of travel.
    assert_eq!((u.heading_x, u.heading_z), (3000, 4000));
    let hx = u.heading_x;
    let hz = u.heading_z;
    // Walk the rest of the way; the final arrival keeps the last heading.
    for _ in 0..60 {
        if !u.moving {
            break;
        }
        move_unit_step(&mut u, Cell { cx: 3, cz: 4 }, &obstacles, &others, 100, &cfg);
    }
    assert!(!u.moving);
    assert!(u.heading_x > 0 && u.heading_z > 0);
    let _ = (hx, hz);
}

#[test]
fn primary_unit_wins_its_target_even_as_anothers_alternative() {
    // A non-primary unit whose target cell is taken probes alternatives;
    // it can never snatch a cell that outranks it: whoever claims the
    // primary's target must not be outranked by the primary.
    let reqs = vec![
        MoveRequest { pos: p(0, 100, 0), target: p(1000, 100, 0), primary: false },
        MoveRequest { pos: p(2000, 100, 2000), target: p(1000, 100, 0), primary: true },
    ];
    let occupied: Vec<Cell> = Vec::new();
    let assigned = arbitrate(&reqs, &occupied);
    // The primary claimed the contested cell outright.
    assert!(assigned[1].claimed);
    assert_eq!((assigned[1].cell.cx, assigned[1].cell.cz), (1, 0));
    assert!(assigned[0].claimed);
    assert_ne!((assigned[0].cell.cx, assigned[0].cell.cz), (1, 0));
}
