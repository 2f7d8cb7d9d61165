//! Buildings as the game data describes them, and the capacities that a
//! building's craft list grants.

use std::collections::BTreeMap;
use std::collections::HashMap;
use vstd::prelude::*;

verus! {

/// Names by numeric key, as the language tables give them.
pub type IndexedStringMap = HashMap<usize, String>;

/// The buildings of one region by building key.
pub type BuildingMap = BTreeMap<usize, Building>;

/// Cost, storage capacity and lodging capacity of a selection of buildings.
#[derive(Clone, Copy, Debug)]
pub struct UsageCounters {
    pub cost: usize,
    pub warehouse_count: usize,
    pub worker_count: usize,
}

impl UsageCounters {
    /// Counters of the empty selection.
    pub fn new() -> (counters: Self)
        ensures
            counters.cost == 0,
            counters.warehouse_count == 0,
            counters.worker_count == 0,
    {
        Self { cost: 0, warehouse_count: 0, worker_count: 0 }
    }
}

/// One use a building can be put to, with the level of the house.
#[derive(Clone, Copy, Debug)]
pub struct CraftList {
    pub house_level: u32,
    pub item_craft_index: usize,
}

/// Slots that a house of `level` grants when put to the use `craft_index`:
/// lodging (1), storage (2) or stable (3); nothing for any other use or level.
pub open spec fn slots_for(craft_index: usize, level: u32) -> u32 {
    if craft_index == 1 {
        if level == 1 {
            1
        } else if level == 2 {
            2
        } else if level == 3 {
            4
        } else if level == 4 {
            6
        } else if level == 5 {
            8
        } else {
            0
        }
    } else if craft_index == 2 {
        if level == 1 {
            3
        } else if level == 2 {
            5
        } else if level == 3 {
            8
        } else if level == 4 {
            12
        } else if level == 5 {
            16
        } else {
            0
        }
    } else if craft_index == 3 {
        if 1 <= level <= 5 {
            level
        } else {
            0
        }
    } else {
        0
    }
}

impl CraftList {
    /// The slots this craft entry grants.
    pub fn level_to_count(&self) -> (count: u32)
        ensures
            count == slots_for(self.item_craft_index, self.house_level),
    {
        if self.item_craft_index == 0 || self.item_craft_index > 3 {
            return 0;
        }
        match self.item_craft_index {
            1 => match self.house_level {
                1 => 1,
                2 => 2,
                3 => 4,
                4 => 6,
                5 => 8,
                _ => 0,
            },
            2 => match self.house_level {
                1 => 3,
                2 => 5,
                3 => 8,
                4 => 12,
                5 => 16,
                _ => 0,
            },
            3 => match self.house_level {
                1 => 1,
                2 => 2,
                3 => 3,
                4 => 4,
                5 => 5,
                _ => 0,
            },
            _ => 0,
        }
    }
}

/// Slots granted by the first entry of `crafts` whose use is `craft_index`;
/// zero when no entry has that use.
pub open spec fn first_craft_slots(crafts: Seq<CraftList>, craft_index: usize) -> nat
    decreases crafts.len(),
{
    if crafts.len() == 0 {
        0
    } else if crafts[0].item_craft_index == craft_index {
        slots_for(craft_index, crafts[0].house_level) as nat
    } else {
        first_craft_slots(crafts.skip(1), craft_index)
    }
}

/// One record of the house table.
#[derive(Debug)]
pub struct HouseInfo {
    pub affiliated_town: usize,
    pub character_key: usize,
    pub craft_list: Vec<CraftList>,
    pub len_need_house_key: usize,
    pub house_floor: usize,
    pub house_group: usize,
    pub need_explore_point: u32,
    pub need_house_key: usize,
    pub num_craft_list_items: u32,
    pub parent_node: usize,
}

impl HouseInfo {
    /// Lodging slots of this house.
    pub fn worker_count(&self) -> (count: usize)
        ensures
            count == first_craft_slots(self.craft_list@, 1),
    {
        self.craft_index_to_count(1)
    }

    /// Storage slots of this house.
    pub fn warehouse_count(&self) -> (count: usize)
        ensures
            count == first_craft_slots(self.craft_list@, 2),
    {
        self.craft_index_to_count(2)
    }

    /// Stable slots of this house.
    pub fn stable_count(&self) -> (count: usize)
        ensures
            count == first_craft_slots(self.craft_list@, 3),
    {
        self.craft_index_to_count(3)
    }

    /// Slots of the first craft entry with the given use.
    pub fn craft_index_to_count(&self, index: usize) -> (count: usize)
        ensures
            count == first_craft_slots(self.craft_list@, index),
    {
        let mut i: usize = 0;
        assert(self.craft_list@.skip(0) =~= self.craft_list@);
        while i < self.craft_list.len()
            invariant
                i <= self.craft_list.len(),
                first_craft_slots(self.craft_list@, index) == first_craft_slots(
                    self.craft_list@.skip(i as int),
                    index,
                ),
            decreases self.craft_list.len() - i,
        {
            let craft = &self.craft_list[i];
            if craft.item_craft_index == index {
                return craft.level_to_count() as usize;
            }
            assert(self.craft_list@.skip(i as int).skip(1) =~= self.craft_list@.skip(i + 1));
            i += 1;
        }
        0
    }

    /// The key of the building that must be held before this one: the
    /// needed house where exactly one is named, else the town itself.
    pub open spec fn need_key(&self) -> usize {
        if self.len_need_house_key == 1 {
            self.need_house_key
        } else {
            self.affiliated_town
        }
    }
}

/// A building of a region: a node of the region's tree with its cost and
/// its capacities.
#[derive(Clone, Debug)]
pub struct Building {
    pub key: usize,
    pub need_key: usize,
    pub node_key: usize,
    pub region_key: usize,
    pub building_name: String,
    pub node_name: String,
    pub region_name: String,
    pub cost: usize,
    pub worker_count: usize,
    pub stable_count: usize,
    pub warehouse_count: usize,
    pub craft_list: Vec<CraftList>,
}

impl Building {
    /// The building that a house record describes, named from the three
    /// language tables.
    pub fn new(
        house_info: &HouseInfo,
        character: &IndexedStringMap,
        exploration: &IndexedStringMap,
        region: &IndexedStringMap,
    ) -> (building: Self)
        requires
            character@.contains_key(house_info.character_key),
            exploration@.contains_key(house_info.parent_node),
            region@.contains_key(house_info.affiliated_town),
        ensures
            building.key == house_info.character_key,
            building.need_key == house_info.need_key(),
            building.node_key == house_info.parent_node,
            building.region_key == house_info.affiliated_town,
            building.building_name@ == character@[house_info.character_key]@,
            building.node_name@ == exploration@[house_info.parent_node]@,
            building.region_name@ == region@[house_info.affiliated_town]@,
            building.cost == house_info.need_explore_point,
            building.worker_count == first_craft_slots(house_info.craft_list@, 1),
            building.warehouse_count == first_craft_slots(house_info.craft_list@, 2),
            building.stable_count == first_craft_slots(house_info.craft_list@, 3),
            building.craft_list@ == house_info.craft_list@,
    {
        let key = house_info.character_key;
        let node_key = house_info.parent_node;
        let region_key = house_info.affiliated_town;
        let building_name = match character.get(&key) {
            Some(name) => name.clone(),
            None => String::new(),
        };
        let node_name = match exploration.get(&node_key) {
            Some(name) => name.clone(),
            None => String::new(),
        };
        let region_name = match region.get(&region_key) {
            Some(name) => name.clone(),
            None => String::new(),
        };
        Self {
            key,
            need_key: if house_info.len_need_house_key == 1 {
                house_info.need_house_key
            } else {
                house_info.affiliated_town
            },
            node_key,
            region_key,
            building_name,
            node_name,
            region_name,
            cost: house_info.need_explore_point as usize,
            worker_count: house_info.worker_count(),
            warehouse_count: house_info.warehouse_count(),
            stable_count: house_info.stable_count(),
            craft_list: house_info.craft_list.clone(),
        }
    }
}

} // verus!
