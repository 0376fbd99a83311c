use osrssg::grid::Pos3;
use osrssg::items::{ResourceKind, ItemId};
use osrssg::unit::Unit;
use osrssg::gathering::{ResourceNode, GatherState};
use osrssg::movement::Obstacle;
use osrssg::orders::{ClickTarget, resolve_click, handle_click_command};
use osrssg::rays::Ray;

fn p(x: i64, y: i64, z: i64) -> Pos3 {
    Pos3 { x, y, z }
}

fn down_ray(x: i64, z: i64) -> Ray {
    Ray { origin: p(x, 9000, z), dir_x: 0, dir_y: -1000, dir_z: 0 }
}

fn copper_node(x: i64, z: i64) -> ResourceNode {
    ResourceNode::new(ResourceKind::Copper, 30, 1000, 1500, p(x, 100, z))
}

#[test]
fn click_on_a_node_resolves_to_a_gather_order() {
    let nodes = vec![copper_node(5000, 5000), copper_node(8000, 8000)];
    let obstacles = vec![Obstacle { pos: p(5000, 100, 5000), size_x: 800, size_y: 500, size_z: 800 }];
    let r = resolve_click(down_ray(5100, 5000), &nodes, &obstacles);
    assert_eq!(r, ClickTarget::Gather(0));
    let r2 = resolve_click(down_ray(8000, 7900), &nodes, &obstacles);
    assert_eq!(r2, ClickTarget::Gather(1));
}

#[test]
fn click_on_an_obstacle_walks_up_to_an_adjacent_tile() {
    let nodes: Vec<ResourceNode> = Vec::new();
    let obstacles = vec![Obstacle { pos: p(3000, 100, 0), size_x: 800, size_y: 500, size_z: 800 }];
    // Click straight down on the box from the west side.
    let r = resolve_click(down_ray(2700, 0), &nodes, &obstacles);
    match r {
        ClickTarget::Move(t) => {
            // The closest of the four adjacent tiles to the clicked point.
            assert_eq!((t.x, t.z), (2000, 0));
        },
        _ => panic!("expected a walk-up move order"),
    }
}

#[test]
fn click_on_open_ground_resolves_to_a_snapped_move() {
    let nodes: Vec<ResourceNode> = Vec::new();
    let obstacles: Vec<Obstacle> = Vec::new();
    let r = resolve_click(down_ray(4600, -1400), &nodes, &obstacles);
    assert_eq!(r, ClickTarget::Move(p(5000, 100, -1000)));
}

#[test]
fn upward_click_misses() {
    let nodes = vec![copper_node(5000, 5000)];
    let obstacles: Vec<Obstacle> = Vec::new();
    let up = Ray { origin: p(0, 100, 0), dir_x: 0, dir_y: 1000, dir_z: 0 };
    assert_eq!(resolve_click(up, &nodes, &obstacles), ClickTarget::Miss);
}

#[test]
fn click_command_orders_the_selection_to_gather() {
    let nodes = vec![copper_node(5000, 5000)];
    let obstacles: Vec<Obstacle> = Vec::new();
    let mut units = vec![Unit::new(p(0, 100, 0), 300), Unit::new(p(1000, 100, 0), 300)];
    // The second unit's bag is already full: its order is rejected.
    units[1].inventory.add_items(ItemId::CopperOre, 28, 1);
    let selected = vec![0usize, 1usize];
    let r = handle_click_command(&mut units, &selected, &nodes, &obstacles, down_ray(5000, 5000));
    assert_eq!(r, ClickTarget::Gather(0));
    let t = units[0].task.expect("order attached");
    assert_eq!(t.state, GatherState::Walking);
    assert_eq!(units[0].dest.unwrap(), p(5000, 100, 5000));
    assert!(units[1].task.is_none());
    assert!(!units[1].moving);
}

#[test]
fn click_command_moves_the_selection_on_open_ground() {
    let nodes: Vec<ResourceNode> = Vec::new();
    let obstacles: Vec<Obstacle> = Vec::new();
    let mut units = vec![Unit::new(p(0, 100, 0), 300)];
    let selected = vec![0usize];
    let r = handle_click_command(&mut units, &selected, &nodes, &obstacles, down_ray(2400, 2600));
    assert_eq!(r, ClickTarget::Move(p(2000, 100, 3000)));
    assert!(units[0].moving);
    assert_eq!(units[0].dest.unwrap(), p(2000, 100, 3000));
}
