use osrssg::grid::Pos3;
use osrssg::items::{ResourceKind, ItemId};
use osrssg::unit::Unit;
use osrssg::gathering::{
    ResourceNode, GatherState, GatherOutcome, issue_gather_task, gather_step,
    process_gathering_state_machine,
};
use osrssg::movement::SimConfig;
use osrssg::world::World;

fn p(x: i64, y: i64, z: i64) -> Pos3 {
    Pos3 { x, y, z }
}

fn copper_node(x: i64, z: i64, remaining: u32) -> ResourceNode {
    ResourceNode::new(ResourceKind::Copper, remaining, 1000, 1500, p(x, 100, z))
}

#[test]
fn gather_order_is_rejected_when_inventory_is_full() {
    let mut u = Unit::new(p(0, 100, 0), 300);
    u.inventory.add_items(ItemId::CopperOre, 28, 1);
    let before_used = u.inventory.used_slots();
    let nodes = vec![copper_node(5000, 0, 30)];
    let accepted = issue_gather_task(&mut u, 0, &nodes);
    assert!(!accepted);
    assert!(u.task.is_none());
    assert!(!u.moving);
    assert!(u.dest.is_none());
    assert_eq!(u.inventory.used_slots(), before_used);
}

#[test]
fn gather_order_is_rejected_for_a_vanished_node() {
    let mut u = Unit::new(p(0, 100, 0), 300);
    let nodes = vec![copper_node(5000, 0, 30)];
    let accepted = issue_gather_task(&mut u, 7, &nodes);
    assert!(!accepted);
    assert!(u.task.is_none());
}

#[test]
fn gather_order_attaches_walking_task_and_destination() {
    let mut u = Unit::new(p(0, 100, 0), 300);
    let nodes = vec![copper_node(5400, -2600, 30)];
    let accepted = issue_gather_task(&mut u, 0, &nodes);
    assert!(accepted);
    let t = u.task.expect("task attached");
    assert_eq!(t.state, GatherState::Walking);
    assert_eq!(t.target, 0);
    assert_eq!(t.period_ms, 1000);
    assert!(u.moving);
    let d = u.dest.expect("destination attached");
    assert_eq!(d.x, 5000);
    assert_eq!(d.z, -3000);
}

#[test]
fn walking_turns_into_harvesting_within_reach() {
    let mut u = Unit::new(p(4000, 100, 0), 300);
    let mut nodes = vec![copper_node(5000, 0, 30)];
    assert!(issue_gather_task(&mut u, 0, &nodes));
    let r = gather_step(&mut u, &mut nodes, 100);
    assert_eq!(r, GatherOutcome::StartedHarvest);
    assert_eq!(u.task.unwrap().state, GatherState::Harvesting);
    assert!(!u.moving);
}

#[test]
fn walking_continues_out_of_reach() {
    let mut u = Unit::new(p(0, 100, 0), 300);
    let mut nodes = vec![copper_node(5000, 0, 30)];
    assert!(issue_gather_task(&mut u, 0, &nodes));
    let r = gather_step(&mut u, &mut nodes, 100);
    assert_eq!(r, GatherOutcome::KeptWalking);
    assert_eq!(u.task.unwrap().state, GatherState::Walking);
    assert!(u.moving);
}

#[test]
fn harvesting_reverts_to_walking_when_pushed_away() {
    let mut u = Unit::new(p(4000, 100, 0), 300);
    let mut nodes = vec![copper_node(5000, 0, 30)];
    assert!(issue_gather_task(&mut u, 0, &nodes));
    assert_eq!(gather_step(&mut u, &mut nodes, 100), GatherOutcome::StartedHarvest);
    u.pos = p(0, 100, 0);
    let r = gather_step(&mut u, &mut nodes, 100);
    assert_eq!(r, GatherOutcome::ResumedWalk);
    assert_eq!(u.task.unwrap().state, GatherState::Walking);
    assert!(u.moving);
    assert_eq!(u.dest.unwrap().x, 5000);
}

#[test]
fn harvest_timer_gathers_one_item_per_period() {
    let mut u = Unit::new(p(4500, 100, 0), 300);
    let mut nodes = vec![copper_node(5000, 0, 30)];
    assert!(issue_gather_task(&mut u, 0, &nodes));
    assert_eq!(gather_step(&mut u, &mut nodes, 100), GatherOutcome::StartedHarvest);
    assert_eq!(gather_step(&mut u, &mut nodes, 400), GatherOutcome::Waited);
    assert_eq!(nodes[0].remaining, 30);
    assert_eq!(gather_step(&mut u, &mut nodes, 600), GatherOutcome::Harvested);
    assert_eq!(nodes[0].remaining, 29);
    assert_eq!(u.inventory.count_item(ItemId::CopperOre), 1);
    assert_eq!(u.task.unwrap().elapsed_ms, 0);
}

#[test]
fn depleted_node_drops_the_task() {
    let mut u = Unit::new(p(4500, 100, 0), 300);
    let mut nodes = vec![copper_node(5000, 0, 0)];
    assert!(issue_gather_task(&mut u, 0, &nodes));
    assert_eq!(gather_step(&mut u, &mut nodes, 100), GatherOutcome::StartedHarvest);
    let r = gather_step(&mut u, &mut nodes, 100);
    assert_eq!(r, GatherOutcome::TaskDropped);
    assert!(u.task.is_none());
    assert_eq!(nodes[0].remaining, 0);
}

#[test]
fn full_inventory_parks_the_task_in_full_for_good() {
    let mut u = Unit::new(p(4500, 100, 0), 300);
    u.inventory.add_items(ItemId::CopperOre, 27, 1);
    let mut nodes = vec![copper_node(5000, 0, 30)];
    assert!(issue_gather_task(&mut u, 0, &nodes));
    assert_eq!(gather_step(&mut u, &mut nodes, 100), GatherOutcome::StartedHarvest);
    // One item fits, then the inventory is full.
    assert_eq!(gather_step(&mut u, &mut nodes, 1000), GatherOutcome::Harvested);
    assert!(u.inventory.is_full());
    assert_eq!(gather_step(&mut u, &mut nodes, 1000), GatherOutcome::BecameFull);
    assert_eq!(u.task.unwrap().state, GatherState::Full);
    // Full has no outgoing transition: further ticks change nothing.
    assert_eq!(gather_step(&mut u, &mut nodes, 1000), GatherOutcome::Idle);
    assert_eq!(u.task.unwrap().state, GatherState::Full);
    assert_eq!(nodes[0].remaining, 29);
}

#[test]
fn two_harvesters_conserve_the_shared_pool() {
    let mut units = vec![Unit::new(p(4500, 100, 0), 300), Unit::new(p(5500, 100, 0), 300)];
    let mut nodes = vec![copper_node(5000, 0, 5)];
    {
        let (a, b) = units.split_at_mut(1);
        assert!(issue_gather_task(&mut a[0], 0, &nodes));
        assert!(issue_gather_task(&mut b[0], 0, &nodes));
    }
    for _ in 0..10 {
        process_gathering_state_machine(&mut units, &mut nodes, 1000);
    }
    let c0 = units[0].inventory.count_item(ItemId::CopperOre);
    let c1 = units[1].inventory.count_item(ItemId::CopperOre);
    assert_eq!(nodes[0].remaining, 0);
    assert_eq!(c0 + c1, 5);
    // Depletion dropped both tasks.
    assert!(units[0].task.is_none());
    assert!(units[1].task.is_none());
}

#[test]
fn full_gather_loop_fills_the_bag_and_leaves_the_rest() {
    // A unit with an empty 28-slot bag gathers a copper node of 30:
    // after enough one-second ticks the bag is full, two items remain
    // on the node, and the task sits in Full.
    let cfg = SimConfig::standard();
    let mut world = World {
        units: vec![Unit::new(p(2000, 100, 5000), 300)],
        nodes: vec![copper_node(5000, 5000, 30)],
        obstacles: Vec::new(),
        config: cfg,
    };
    assert!(issue_gather_task(&mut world.units[0], 0, &world.nodes));
    for _ in 0..40 {
        world.tick(1000);
    }
    assert!(world.units[0].inventory.is_full());
    assert_eq!(world.units[0].inventory.used_slots(), 28);
    assert_eq!(world.units[0].inventory.count_item(ItemId::CopperOre), 28);
    assert_eq!(world.nodes[0].remaining, 2);
    assert_eq!(world.units[0].task.unwrap().state, GatherState::Full);
}

#[test]
fn tick_reports_which_inventories_changed() {
    let cfg = SimConfig::standard();
    let mut world = World {
        units: vec![Unit::new(p(4500, 100, 0), 300), Unit::new(p(0, 100, 0), 300)],
        nodes: vec![copper_node(5000, 0, 30)],
        obstacles: Vec::new(),
        config: cfg,
    };
    assert!(issue_gather_task(&mut world.units[0], 0, &world.nodes));
    let first = world.tick(1000);
    assert_eq!(first, vec![false, false]);
    let second = world.tick(1000);
    assert_eq!(second, vec![true, false]);
}

#[test]
fn vanished_node_drops_the_task_mid_walk() {
    let mut u = Unit::new(p(0, 100, 0), 300);
    let mut nodes = vec![copper_node(5000, 0, 30)];
    assert!(issue_gather_task(&mut u, 0, &nodes));
    nodes.clear();
    let r = gather_step(&mut u, &mut nodes, 100);
    assert_eq!(r, GatherOutcome::TaskDropped);
    assert!(u.task.is_none());
}
