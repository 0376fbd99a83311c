use osrssg::grid::{Pos3, dist_sq_xz};
use osrssg::items::ResourceKind;
use osrssg::movement::SimConfig;
use osrssg::world::World;
use osrssg::spawn::{ResourceSpawnConfig, choose_kind, find_safe_resource_position, spawn_resources};
use osrssg::selection::SelectedUnits;
use osrssg::rng::{new_rng, rng_range};
use osrssg::rays::{Ray, ray_ground_intersection, ray_box_intersection, ray_intersects_cylinder};

fn p(x: i64, y: i64, z: i64) -> Pos3 {
    Pos3 { x, y, z }
}

#[test]
fn rng_samples_stay_in_the_requested_range() {
    let mut rng = new_rng();
    for _ in 0..50 {
        let v = rng_range(&mut rng, -3, 9);
        assert!((-3..=9).contains(&v));
    }
    assert_eq!(rng_range(&mut rng, 7, 7), 7);
}

#[test]
fn kind_rolls_follow_the_weights() {
    assert_eq!(choose_kind(0), ResourceKind::Wood);
    assert_eq!(choose_kind(399), ResourceKind::Wood);
    assert_eq!(choose_kind(400), ResourceKind::Copper);
    assert_eq!(choose_kind(699), ResourceKind::Copper);
    assert_eq!(choose_kind(700), ResourceKind::Tin);
    assert_eq!(choose_kind(999), ResourceKind::Tin);
}

#[test]
fn safe_position_is_aligned_in_bounds_and_clear() {
    let mut rng = new_rng();
    let existing = vec![p(0, 100, 0)];
    let found = find_safe_resource_position(&mut rng, -8, 8, &existing, 3000, 200);
    let q = found.expect("an empty sixteen-cell square has room");
    assert_eq!(q.x % 1000, 0);
    assert_eq!(q.z % 1000, 0);
    assert!((-8000..=8000).contains(&q.x));
    assert!((-8000..=8000).contains(&q.z));
    assert!(dist_sq_xz(q, existing[0]) >= 3000 * 3000);
}

#[test]
fn safe_position_gives_up_on_crowded_ground() {
    let mut rng = new_rng();
    // Everything within a sixteen-cell square is closer than a thousand
    // cells to the centre: no attempt can succeed.
    let existing = vec![p(0, 100, 0)];
    let found = find_safe_resource_position(&mut rng, -8, 8, &existing, 1_000_000, 50);
    assert!(found.is_none());
}

#[test]
fn spawned_nodes_keep_their_distance_and_their_kind_rules() {
    let mut rng = new_rng();
    let mut world = World::new(SimConfig::standard());
    let cfg = ResourceSpawnConfig::standard();
    let spawned = spawn_resources(&mut world, &mut rng, &cfg);
    assert!(spawned >= 1 && spawned <= 8);
    assert_eq!(world.nodes.len(), spawned);
    assert_eq!(world.obstacles.len(), spawned);
    for i in 0..world.nodes.len() {
        let nd = &world.nodes[i];
        assert_eq!(nd.pos.x % 1000, 0);
        assert_eq!(nd.pos.z % 1000, 0);
        assert_eq!(nd.gather_radius, 1500);
        let expected = match nd.kind {
            ResourceKind::Wood => 50,
            ResourceKind::Copper => 30,
            ResourceKind::Tin => 25,
        };
        assert_eq!(nd.remaining, expected);
        for j in 0..world.nodes.len() {
            if i != j {
                assert!(dist_sq_xz(nd.pos, world.nodes[j].pos) >= 2000 * 2000);
            }
        }
    }
}

#[test]
fn selection_tracks_units_without_duplicates() {
    let mut sel = SelectedUnits::new();
    assert_eq!(sel.count(), 0);
    sel.add(5);
    sel.add(9);
    sel.add(5);
    assert_eq!(sel.count(), 2);
    assert!(sel.is_selected(5));
    assert!(sel.is_selected(9));
    assert!(!sel.is_selected(7));
    sel.remove(5);
    assert_eq!(sel.count(), 1);
    assert!(!sel.is_selected(5));
    assert!(sel.is_selected(9));
    sel.clear();
    assert_eq!(sel.count(), 0);
}

#[test]
fn downward_ray_meets_the_ground_exactly() {
    let ray = Ray { origin: p(1000, 5000, 2000), dir_x: 1000, dir_y: -1000, dir_z: 0 };
    let hit = ray_ground_intersection(ray, 0).expect("downward ray hits");
    assert_eq!((hit.x, hit.y, hit.z), (6000, 0, 2000));
}

#[test]
fn level_ray_misses_the_ground() {
    let ray = Ray { origin: p(0, 5000, 0), dir_x: 1000, dir_y: 0, dir_z: 0 };
    assert!(ray_ground_intersection(ray, 0).is_none());
}

#[test]
fn ray_box_hits_and_misses() {
    // Straight down onto the box.
    let down = Ray { origin: p(3000, 9000, 0), dir_x: 0, dir_y: -1000, dir_z: 0 };
    assert!(ray_box_intersection(down, p(3000, 250, 0), 800, 500, 800));
    // Down but two cells off: a miss.
    let off = Ray { origin: p(5000, 9000, 0), dir_x: 0, dir_y: -1000, dir_z: 0 };
    assert!(!ray_box_intersection(off, p(3000, 250, 0), 800, 500, 800));
    // A ray pointing away from the box misses it.
    let away = Ray { origin: p(3000, 9000, 0), dir_x: 0, dir_y: 1000, dir_z: 0 };
    assert!(!ray_box_intersection(away, p(3000, 250, 0), 800, 500, 800));
    // Sideways through the box at its height.
    let through = Ray { origin: p(0, 250, 0), dir_x: 1000, dir_y: 0, dir_z: 0 };
    assert!(ray_box_intersection(through, p(3000, 250, 0), 800, 500, 800));
}

#[test]
fn ray_cylinder_picks_a_unit_by_its_volume() {
    let down = Ray { origin: p(2000, 9000, 50), dir_x: 0, dir_y: -1000, dir_z: 0 };
    assert!(ray_intersects_cylinder(down, p(2000, 0, 0), 1200, 2000));
    let wide = Ray { origin: p(9000, 9000, 0), dir_x: 0, dir_y: -1000, dir_z: 0 };
    assert!(!ray_intersects_cylinder(wide, p(2000, 0, 0), 1200, 2000));
    // A sideways ray at the cylinder's height hits it.
    let side = Ray { origin: p(-9000, 1000, 0), dir_x: 1000, dir_y: 0, dir_z: 0 };
    assert!(ray_intersects_cylinder(side, p(2000, 0, 0), 1200, 2000));
    // The same ray above the cylinder's top misses.
    let high = Ray { origin: p(-9000, 3000, 0), dir_x: 1000, dir_y: 0, dir_z: 0 };
    assert!(!ray_intersects_cylinder(high, p(2000, 0, 0), 1200, 2000));
}

#[test]
fn world_tick_is_conservative_without_gatherers() {
    let mut world = World::new(SimConfig::standard());
    let changed = world.tick(100);
    assert!(changed.is_empty());
    assert_eq!(world.units.len(), 0);
}

#[test]
fn spawned_nodes_keep_clear_of_units() {
    let mut rng = new_rng();
    let mut world = World::new(SimConfig::standard());
    world.units.push(osrssg::unit::Unit::new(p(0, 100, 0), 300));
    let cfg = ResourceSpawnConfig::standard();
    let spawned = spawn_resources(&mut world, &mut rng, &cfg);
    for i in 0..spawned {
        assert!(dist_sq_xz(world.nodes[i].pos, p(0, 100, 0)) >= 1500 * 1500);
    }
}

#[test]
fn selection_remove_keeps_the_order() {
    let mut sel = SelectedUnits::new();
    sel.add(3);
    sel.add(7);
    sel.add(1);
    sel.add(9);
    sel.remove(7);
    assert_eq!(sel.entities, vec![3, 1, 9]);
    sel.remove(3);
    assert_eq!(sel.entities, vec![1, 9]);
    sel.remove(42);
    assert_eq!(sel.entities, vec![1, 9]);
}
