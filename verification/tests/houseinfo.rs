use housecraft::houseinfo::{Building, BuildingMap, CraftList, HouseInfo, IndexedStringMap, UsageCounters};
use housecraft::list_regions::{summarize_region, Stats};

fn craft(item_craft_index: usize, house_level: u32) -> CraftList {
    CraftList { house_level, item_craft_index }
}

fn house(crafts: Vec<CraftList>) -> HouseInfo {
    HouseInfo {
        affiliated_town: 5,
        character_key: 3001,
        craft_list: crafts,
        len_need_house_key: 1,
        house_floor: 1,
        house_group: 2,
        need_explore_point: 3,
        need_house_key: 3000,
        num_craft_list_items: 0,
        parent_node: 77,
    }
}

#[test]
fn counters_start_at_zero() {
    let counters = UsageCounters::new();
    assert_eq!((counters.cost, counters.warehouse_count, counters.worker_count), (0, 0, 0));
    let stats = Stats::new();
    assert_eq!((stats.cost, stats.warehouse_count, stats.worker_count), (0, 0, 0));
}

#[test]
fn levels_give_the_slots_of_the_tables() {
    let lodging: Vec<u32> = (0..7).map(|level| craft(1, level).level_to_count()).collect();
    assert_eq!(lodging, vec![0, 1, 2, 4, 6, 8, 0]);
    let storage: Vec<u32> = (0..7).map(|level| craft(2, level).level_to_count()).collect();
    assert_eq!(storage, vec![0, 3, 5, 8, 12, 16, 0]);
    let stable: Vec<u32> = (0..7).map(|level| craft(3, level).level_to_count()).collect();
    assert_eq!(stable, vec![0, 1, 2, 3, 4, 5, 0]);
    assert_eq!(craft(0, 3).level_to_count(), 0);
    assert_eq!(craft(4, 3).level_to_count(), 0);
    assert_eq!(craft(17, 1).level_to_count(), 0);
}

#[test]
fn a_house_counts_by_its_first_craft_of_a_use() {
    let info = house(vec![craft(9, 2), craft(2, 4), craft(1, 3), craft(2, 5)]);
    assert_eq!(info.worker_count(), 4);
    assert_eq!(info.warehouse_count(), 12);
    assert_eq!(info.stable_count(), 0);
    assert_eq!(info.craft_index_to_count(9), 0);
    assert_eq!(house(vec![]).worker_count(), 0);
}

#[test]
fn a_building_is_named_from_the_tables() {
    let mut character = IndexedStringMap::new();
    character.insert(3001, "Hut".to_string());
    let mut exploration = IndexedStringMap::new();
    exploration.insert(77, "Crossroads".to_string());
    let mut region = IndexedStringMap::new();
    region.insert(5, "Velia".to_string());
    let info = house(vec![craft(2, 1), craft(3, 2)]);
    let building = Building::new(&info, &character, &exploration, &region);
    assert_eq!(building.key, 3001);
    assert_eq!(building.need_key, 3000);
    assert_eq!(building.node_key, 77);
    assert_eq!(building.region_key, 5);
    assert_eq!(building.building_name, "Hut");
    assert_eq!(building.node_name, "Crossroads");
    assert_eq!(building.region_name, "Velia");
    assert_eq!(building.cost, 3);
    assert_eq!(building.worker_count, 0);
    assert_eq!(building.warehouse_count, 3);
    assert_eq!(building.stable_count, 2);
    assert_eq!(building.craft_list.len(), 2);
    let mut first = house(vec![]);
    first.len_need_house_key = 0;
    let building = Building::new(&first, &character, &exploration, &region);
    assert_eq!(building.need_key, 5);
}

#[test]
fn a_region_sums_its_buildings() {
    let mut character = IndexedStringMap::new();
    character.insert(3001, "Hut".to_string());
    character.insert(3002, "Barn".to_string());
    let mut exploration = IndexedStringMap::new();
    exploration.insert(77, "Crossroads".to_string());
    let mut region = IndexedStringMap::new();
    region.insert(5, "Velia".to_string());
    let mut map = BuildingMap::new();
    let hut = Building::new(&house(vec![craft(2, 2)]), &character, &exploration, &region);
    let mut barn_info = house(vec![craft(1, 5), craft(2, 1)]);
    barn_info.character_key = 3002;
    barn_info.need_explore_point = 7;
    let barn = Building::new(&barn_info, &character, &exploration, &region);
    map.insert(hut.key, hut);
    map.insert(barn.key, barn);
    let stats = summarize_region(&map).unwrap();
    assert_eq!((stats.cost, stats.warehouse_count, stats.worker_count), (10, 8, 8));
    let twice = stats.plus(&stats).unwrap();
    assert_eq!((twice.cost, twice.warehouse_count, twice.worker_count), (20, 16, 16));
    let full = Stats { cost: usize::MAX, warehouse_count: 0, worker_count: 0 };
    assert!(full.plus(&stats).is_none());
    assert!(summarize_region(&BuildingMap::new()).is_some());
}
