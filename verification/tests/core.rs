use osrssg::grid::{Pos3, snap_to_grid, snap_to_grid_keep_height, cell_of, dist_sq_xz, dist_sq_3d, isqrt};
use osrssg::items::{ResourceKind, ItemId, ItemStack};
use osrssg::inventory::Inventory;
use osrssg::movement::SimConfig;
use osrssg::gathering::GatherTask;

fn p(x: i64, y: i64, z: i64) -> Pos3 {
    Pos3 { x, y, z }
}

#[test]
fn snap_rounds_to_nearest_cell_centre() {
    let s = snap_to_grid(p(1499, 777, -1499));
    assert_eq!(s.x, 1000);
    assert_eq!(s.y, 100);
    assert_eq!(s.z, -1000);
    let s2 = snap_to_grid(p(1500, 0, -1500));
    assert_eq!(s2.x, 2000);
    assert_eq!(s2.z, -2000);
}

#[test]
fn snap_keep_height_preserves_y() {
    let s = snap_to_grid_keep_height(p(2600, 4321, -100));
    assert_eq!(s.x, 3000);
    assert_eq!(s.y, 4321);
    assert_eq!(s.z, 0);
}

#[test]
fn snap_is_idempotent_on_samples() {
    let samples = [
        p(0, 0, 0),
        p(499, 10, 501),
        p(-499, -10, -501),
        p(123_456, 7, -987_654),
        p(500, 0, -500),
    ];
    for q in samples.iter() {
        let once = snap_to_grid(*q);
        let twice = snap_to_grid(once);
        assert_eq!(once, twice);
        let k_once = snap_to_grid_keep_height(*q);
        let k_twice = snap_to_grid_keep_height(k_once);
        assert_eq!(k_once, k_twice);
    }
}

#[test]
fn cell_of_matches_snapping() {
    let c = cell_of(p(4600, 0, -2499));
    assert_eq!(c.cx, 5);
    assert_eq!(c.cz, -2);
}

#[test]
fn distances_are_exact() {
    assert_eq!(dist_sq_xz(p(0, 0, 0), p(3000, 999, 4000)), 25_000_000);
    assert_eq!(dist_sq_3d(p(0, 0, 0), p(1000, 2000, 2000)), 9_000_000);
}

#[test]
fn isqrt_is_floor_of_root() {
    assert_eq!(isqrt(0), 0);
    assert_eq!(isqrt(1), 1);
    assert_eq!(isqrt(24), 4);
    assert_eq!(isqrt(25), 5);
    assert_eq!(isqrt(26), 5);
    assert_eq!(isqrt(u64::MAX), 4_294_967_295);
}

#[test]
fn resource_metadata_matches_the_rules() {
    assert_eq!(ResourceKind::Copper.display_name(), "Copper rock");
    assert_eq!(ResourceKind::Tin.display_name(), "Tin rock");
    assert_eq!(ResourceKind::Wood.display_name(), "Tree");
    assert_eq!(ResourceKind::Copper.required_skill(), "Mining");
    assert_eq!(ResourceKind::Wood.required_skill(), "Woodcutting");
    assert_eq!(ResourceKind::Copper.required_level(), 1);
    assert_eq!(ResourceKind::Copper.experience_per_item(), 175);
    assert_eq!(ResourceKind::Wood.experience_per_item(), 250);
    assert_eq!(ResourceKind::Copper.base_gather_rate(), 1000);
    assert_eq!(ResourceKind::Wood.base_gather_rate(), 1200);
}

#[test]
fn item_metadata_matches_the_rules() {
    assert_eq!(ItemId::CopperOre.display_name(), "Copper ore");
    assert_eq!(ItemId::TinOre.display_name(), "Tin ore");
    assert_eq!(ItemId::Logs.display_name(), "Logs");
    assert_eq!(ItemId::CopperOre.max_stack_size(), 1);
    assert_eq!(ItemId::from_kind(ResourceKind::Copper), ItemId::CopperOre);
    assert_eq!(ItemId::from(ResourceKind::Copper), ItemId::CopperOre);
    assert_eq!(ItemId::from_kind(ResourceKind::Tin), ItemId::TinOre);
    assert_eq!(ItemId::from_kind(ResourceKind::Wood), ItemId::Logs);
}

#[test]
fn gather_task_period_is_reciprocal_of_rate() {
    let t = GatherTask::new(3, 1200);
    assert_eq!(t.period_ms, 833);
    assert_eq!(t.elapsed_ms, 0);
    let t2 = GatherTask::new(0, 1000);
    assert_eq!(t2.period_ms, 1000);
}

#[test]
fn standard_config_has_the_canonical_parameters() {
    let c = SimConfig::standard();
    assert_eq!(c.move_speed, 2000);
    assert_eq!(c.arrival_threshold, 200);
    assert_eq!(c.stuck_threshold_ms, 2000);
    assert_eq!(c.default_gather_radius, 1500);
    assert_eq!(c.default_gather_rate, 1000);
    assert_eq!(c.max_stack_size, 1);
    assert_eq!(c.inventory_slots, 28);
}

#[test]
fn fresh_inventory_is_empty() {
    let inv = Inventory::new();
    assert_eq!(inv.used_slots(), 0);
    assert!(!inv.is_full());
    assert_eq!(inv.count_item(ItemId::Logs), 0);
}

#[test]
fn add_items_fills_up_to_capacity() {
    let mut inv = Inventory::new();
    let added = inv.add_items(ItemId::CopperOre, 10, 1);
    assert_eq!(added, 10);
    assert_eq!(inv.used_slots(), 10);
    let added2 = inv.add_items(ItemId::CopperOre, 30, 1);
    assert_eq!(added2, 18);
    assert_eq!(inv.used_slots(), 28);
    assert!(inv.is_full());
    assert_eq!(inv.count_item(ItemId::CopperOre), 28);
    let added3 = inv.add_items(ItemId::CopperOre, 5, 1);
    assert_eq!(added3, 0);
}

#[test]
fn add_items_tops_up_existing_stacks_first() {
    let mut inv = Inventory::new();
    assert_eq!(inv.add_items(ItemId::Logs, 3, 5), 3);
    assert_eq!(inv.used_slots(), 1);
    assert_eq!(inv.add_items(ItemId::Logs, 4, 5), 4);
    // The first stack topped to five, a second stack opened with two.
    assert_eq!(inv.used_slots(), 2);
    assert_eq!(inv.count_item(ItemId::Logs), 7);
    match inv.slots[0] {
        Some(st) => {
            assert_eq!(st.id, ItemId::Logs);
            assert_eq!(st.qty, 5);
        },
        None => panic!("first slot should hold a stack"),
    }
    match inv.slots[1] {
        Some(st) => assert_eq!(st.qty, 2),
        None => panic!("second slot should hold a stack"),
    }
}

#[test]
fn inventory_never_exceeds_capacity_or_stack_limit() {
    let mut inv = Inventory::new();
    inv.add_items(ItemId::TinOre, 1000, 3);
    assert_eq!(inv.used_slots(), 28);
    assert_eq!(inv.count_item(ItemId::TinOre), 84);
    for slot in inv.slots.iter() {
        match slot {
            Some(st) => assert!(st.qty >= 1 && st.qty <= 3),
            None => panic!("inventory should be full"),
        }
    }
}

#[test]
fn add_items_keeps_other_items_intact() {
    let mut inv = Inventory::new();
    inv.add_items(ItemId::Logs, 2, 1);
    inv.add_items(ItemId::TinOre, 3, 1);
    assert_eq!(inv.count_item(ItemId::Logs), 2);
    assert_eq!(inv.count_item(ItemId::TinOre), 3);
    assert_eq!(inv.count_item(ItemId::CopperOre), 0);
    assert_eq!(inv.used_slots(), 5);
}

#[test]
fn item_stack_new_sets_fields() {
    let st = ItemStack::new(ItemId::Logs, 4);
    assert_eq!(st.id, ItemId::Logs);
    assert_eq!(st.qty, 4);
}
