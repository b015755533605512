use dungeon_world::bitmap::Bitmap;
use dungeon_world::cell::{EntitySpawn, MapCell};
use dungeon_world::components::{
    Alignment, Anim, Desc, FovStatus, Health, Icon, Item, ItemType, MapMemory, ShoutType, Stats,
    StatsComponent, Status,
};
use dungeon_world::digger::{Dungeon, MapGen, Room, SectorDigger, VaultCell};
use dungeon_world::forms::{all_forms, pick_form, spawn_table};
use dungeon_world::geom::{vec2, CellVector};
use dungeon_world::grid::Grid;
use dungeon_world::location::{loc_precedes, Chart, ChartPos, LocTable, Location, LocationSet};
use dungeon_world::sector::{is_next_to_diagonal_sector, Sector, SECTOR_HEIGHT, SECTOR_WIDTH};
use dungeon_world::terrain::Terrain;
use dungeon_world::world::{Mob, World};
use dungeon_world::worldgen::{Portal, Worldgen, WorldgenError};
use rand::{Rng, SeedableRng, XorShiftRng};

fn rng(seed: u32) -> XorShiftRng {
    XorShiftRng::from_seed([seed, seed, seed, seed])
}

fn png(width: u32, height: u32, pixels: &[u32]) -> Vec<u8> {
    let mut raw = Vec::new();
    for p in pixels {
        raw.extend_from_slice(&p.to_be_bytes());
    }
    let img = image::RgbaImage::from_raw(width, height, raw).unwrap();
    let mut out = std::io::Cursor::new(Vec::new());
    image::DynamicImage::ImageRgba8(img)
        .write_to(&mut out, image::ImageOutputFormat::Png)
        .unwrap();
    out.into_inner()
}

const GROUND: u32 = 0x808080ff;
const WATER: u32 = 0x0000ffff;
const GRASS: u32 = 0x00ff00ff;
const OTHER: u32 = 0x123456ff;

/// Digs one chamber with stairs at both ends, and a corridor off it.
struct Hall;

impl MapGen for Hall {
    fn dig<D: Dungeon>(&self, rng: &mut XorShiftRng, dungeon: &mut D, domain: &Vec<CellVector>) {
        let room = dungeon.sample_vault(rng);
        let w = 20 + room.width;
        let h = 2 + room.height;
        let area: Vec<CellVector> = domain
            .iter()
            .cloned()
            .filter(|p| 4 <= p.x && p.x < 4 + w && 3 <= p.y && p.y < 3 + h)
            .collect();
        dungeon.dig_chamber(&area);
        let y = 3 + rng.gen_range(0, h);
        let path: Vec<CellVector> = (0..4).map(|x| vec2(x, y)).collect();
        dungeon.dig_corridor(&path);
        dungeon.add_door(vec2(4, y));
        dungeon.add_up_stairs(vec2(5, 2));
        dungeon.add_down_stairs(vec2(4 + w - 2, 2));
    }
}

/// Digs, but forgets the stairs down below the third depth.
struct Forgetful;

impl MapGen for Forgetful {
    fn dig<D: Dungeon>(&self, _rng: &mut XorShiftRng, dungeon: &mut D, _domain: &Vec<CellVector>) {
        dungeon.dig_chamber(&vec![vec2(5, 5), vec2(6, 5)]);
        dungeon.add_up_stairs(vec2(5, 4));
    }
}

struct Idle;

impl MapGen for Idle {
    fn dig<D: Dungeon>(&self, _rng: &mut XorShiftRng, _dungeon: &mut D, _domain: &Vec<CellVector>) {
    }
}

fn overland() -> Vec<u8> {
    let mut pixels = Vec::new();
    for y in 0..21u32 {
        for x in 0..50u32 {
            pixels.push(if y == 20 {
                OTHER
            } else if (x + y) % 7 == 0 {
                WATER
            } else if x % 2 == 0 {
                GRASS
            } else {
                GROUND
            });
        }
    }
    png(50, 21, &pixels)
}

#[test]
fn locations() {
    let l = Location::new(3, -4, 2);
    assert_eq!((l.x, l.y, l.z), (3, -4, 2));
    assert_eq!(l.shifted(vec2(1, 1)), Location::new(4, -3, 2));
    assert_eq!(l.shifted(vec2(-10, 0)), Location::new(-7, -4, 2));
    // Coordinates wrap around.
    assert_eq!(Location::new(i16::MAX, 0, 0).shifted(vec2(1, 0)), Location::new(i16::MIN, 0, 0));
    assert_eq!(Location::new(0, 0, 0).shifted(vec2(65536 + 5, -65536)), Location::new(5, 0, 0));
    assert_eq!(l.offset(2, 3), Some(Location::new(5, -1, 2)));
    assert_eq!(Location::new(i16::MAX, 0, 0).offset(1, 0), None);
    assert_eq!(Location::new(0, i16::MIN, 0).offset(0, -1), None);
    assert_eq!(l.v2_to(Location::new(5, 5, 2)), vec2(2, 9));
    assert_eq!(l.at(vec2(2, 2)), Location::new(5, -2, 2));
    assert!(loc_precedes(Location::new(1, 9, 9), Location::new(2, 0, 0)));
    assert!(loc_precedes(Location::new(1, 2, 9), Location::new(1, 3, 0)));
    assert!(loc_precedes(Location::new(1, 2, 3), Location::new(1, 2, 4)));
    assert!(!loc_precedes(l, l));
}

#[test]
fn chart_positions() {
    let p = ChartPos::new(7, -9);
    assert_eq!((p.x, p.y), (7, -9));
    assert_eq!(ChartPos::from_location(Location::new(-3, 8, 5)), ChartPos::new(-3, 8));
    assert_eq!(p.to_location(), Location::new(7, -9, 0));
    assert_eq!(ChartPos::new(65536 + 2, -1).to_location(), Location::new(2, -1, 0));
    assert_eq!(ChartPos::new(40000, 0).to_location(), Location::new(40000u16 as i16, 0, 0));
    assert_eq!(p.shifted(vec2(1, 2)), Some(ChartPos::new(8, -7)));
    assert_eq!(ChartPos::new(i32::MAX, 0).shifted(vec2(1, 0)), None);
}

#[test]
fn location_sets_are_ordered() {
    let mut s = LocationSet::new();
    assert_eq!(s.len(), 0);
    let a = Location::new(5, 5, 1);
    let b = Location::new(-5, 7, 1);
    let c = Location::new(5, 4, 9);
    let d = Location::new(5, 5, 0);
    for l in [a, b, c, d, a, c] {
        s.insert(l);
    }
    assert_eq!(s.len(), 4);
    assert_eq!(s.to_vec(), vec![b, c, d, a]);
    assert!(s.contains(a));
    assert!(!s.contains(Location::new(5, 5, 2)));
    s.remove(c);
    s.remove(Location::new(0, 0, 0));
    assert_eq!(s.to_vec(), vec![b, d, a]);
    let t = s.duplicate();
    s.remove(b);
    assert_eq!(t.to_vec(), vec![b, d, a]);
    assert_eq!(s.to_vec(), vec![d, a]);
}

#[test]
fn location_tables() {
    let mut t: LocTable<u8> = LocTable::new();
    let a = Location::new(i16::MIN, i16::MAX, -1);
    let b = Location::new(i16::MIN, i16::MAX, 0);
    assert!(t.get(a).is_none());
    t.insert(a, 1);
    t.insert(b, 2);
    t.insert(a, 3);
    assert_eq!(t.get(a), Some(&3));
    assert_eq!(t.get(b), Some(&2));
    assert!(t.contains(b));
    t.remove(b);
    assert!(!t.contains(b));
    assert!(t.contains(a));
    assert!(!t.contains(Location::new(i16::MAX, i16::MIN, -1)));
}

#[test]
fn world_state() {
    let mut w = World::new(77);
    assert_eq!(w.rng_seed(), 77);
    assert_eq!(w.get_tick(), 0);
    assert_eq!(w.depth, 0);
    let l = Location::new(1, 2, 0);
    assert_eq!(w.terrain_get(l), None);
    w.terrain_set(l, Terrain::Water);
    assert_eq!(w.terrain_get(l), Some(Terrain::Water));
    w.terrain_set(l, Terrain::Tree);
    assert_eq!(w.terrain_get(l), Some(Terrain::Tree));
    assert_eq!(w.terrain_get(Location::new(2, 1, 0)), None);
    w.terrain_clear(l);
    assert_eq!(w.terrain_get(l), None);
    let mob = Mob { id: 0, loc: l, icon: Icon::Ogre };
    let a = w.insert_mob(mob);
    let b = w.insert_mob(mob);
    assert_eq!((a, b), (1, 2));
    assert_eq!(w.make_id(), 3);
    assert_eq!(w.insert_mob(mob), 4);
    assert_eq!(w.mobs.len(), 3);
    assert_eq!(w.mobs[&2], Mob { id: 2, loc: l, icon: Icon::Ogre });
    w.remove_mob(2);
    w.remove_mob(9);
    assert_eq!(w.mobs.len(), 2);
    assert!(!w.mobs.contains_key(&2));
    w.advance_frame();
    w.advance_frame();
    assert_eq!(w.get_tick(), 2);
    assert_eq!(w.rng_seed(), 77);
}

#[test]
fn components() {
    let mut a = Anim { tween_from: Location::new(1, 1, 1), tween_current: 2, tween_max: 5 };
    a.tick();
    assert_eq!(a.tween_current, 1);
    a.tick();
    a.tick();
    assert_eq!(a.tween_current, 0);
    assert_eq!(a.tween_max, 5);
    assert_eq!(a.tween_from, Location::new(1, 1, 1));
    assert_eq!(Anim::default().tween_current, 0);
    let d = Desc::new("ogre", Icon::Ogre);
    assert_eq!(d.name, "ogre");
    assert_eq!(d.icon, Icon::Ogre);
    let h = Health::new();
    assert_eq!((h.wounds, h.armor), (0, 0));
    let base = Stats { power: 3, attack: 1, defense: 2, armor: 0, ranged_range: 0, ranged_power: 0 };
    let s = StatsComponent::new(base);
    assert_eq!(s.base, base);
    assert_eq!(s.actual, base);
    let mut m = MapMemory::new();
    let l = Location::new(1, 2, 3);
    assert_eq!(m.status(l), None);
    m.remembered.insert(l);
    assert_eq!(m.status(l), Some(FovStatus::Remembered));
    m.seen.insert(l);
    assert_eq!(m.status(l), Some(FovStatus::Seen));
    assert_eq!(m.status(Location::new(1, 2, 4)), None);
    let item = Item { item_type: ItemType::TargetedUsable, charges: 3 };
    assert_eq!(item.charges, 3);
    assert_ne!(ShoutType::Hiss, ShoutType::Silent);
    assert_ne!(Alignment::Good, Alignment::Evil);
    assert_ne!(Status::Slowed, Status::Hasted);
}

#[test]
fn terrain_table() {
    assert!(Terrain::Wall.blocks_walk());
    assert!(Terrain::Empty.blocks_walk());
    assert!(Terrain::Water.blocks_walk());
    assert!(!Terrain::Ground.blocks_walk());
    assert!(!Terrain::Door.blocks_walk());
    assert!(!Terrain::Gate.blocks_walk());
    assert!(Terrain::Ground.is_open());
    assert!(!Terrain::Door.is_open());
    assert!(!Terrain::Rock.is_open());
    assert_eq!(Terrain::from_color(GROUND), Some(Terrain::Ground));
    assert_eq!(Terrain::from_color(WATER), Some(Terrain::Water));
    assert_eq!(Terrain::from_color(OTHER), None);
    for t in [
        Terrain::Empty,
        Terrain::Gate,
        Terrain::Ground,
        Terrain::Grass,
        Terrain::Water,
        Terrain::Tree,
        Terrain::Wall,
        Terrain::Rock,
        Terrain::Door,
        Terrain::Pillar,
        Terrain::Entrance,
        Terrain::Exit,
    ] {
        assert_eq!(Terrain::from_color(t.color()), Some(t));
    }
}

#[test]
fn sectors() {
    let s = Sector::new(2, -1, 4);
    assert_eq!(s.origin(), Location::new(76, -18, 4));
    assert_eq!(s.loc(vec2(3, 5)), Location::new(79, -13, 4));
    let cells = s.iter();
    assert_eq!(cells.len(), (SECTOR_WIDTH * SECTOR_HEIGHT) as usize);
    assert_eq!(cells[0], Location::new(76, -18, 4));
    assert_eq!(cells[1], Location::new(77, -18, 4));
    assert_eq!(cells[38], Location::new(76, -17, 4));
    assert_eq!(cells[38 * 18 - 1], Location::new(113, -1, 4));
    // Only the two corners on the long diagonal touch a diagonal sector.
    let domain = s.domain();
    assert_eq!(domain.len(), 38 * 18 - 2);
    assert!(!domain.contains(&vec2(0, 0)));
    assert!(!domain.contains(&vec2(37, 17)));
    assert!(domain.contains(&vec2(37, 0)));
    assert!(domain.contains(&vec2(0, 17)));
    assert_eq!(domain[0], vec2(1, 0));
    assert_eq!(domain[37], vec2(0, 1));
    assert!(is_next_to_diagonal_sector(Location::new(0, 0, 0)));
    assert!(is_next_to_diagonal_sector(Location::new(37, 17, 0)));
    assert!(is_next_to_diagonal_sector(Location::new(-1, -1, 0)));
    assert!(is_next_to_diagonal_sector(Location::new(-38, -18, 3)));
    assert!(!is_next_to_diagonal_sector(Location::new(37, 0, 0)));
    assert!(!is_next_to_diagonal_sector(Location::new(-1, 0, 0)));
    assert!(!is_next_to_diagonal_sector(Location::new(10, 10, 0)));
}

#[test]
fn room_shape() {
    let room = Room { width: 3, height: 2 };
    let shape = room.get_shape();
    assert_eq!(shape.len(), 12);
    assert_eq!(shape[0], (vec2(-1, -1), VaultCell::UndiggableWall));
    assert_eq!(shape[1], (vec2(0, -1), VaultCell::DiggableWall));
    assert_eq!(shape[3], (vec2(2, -1), VaultCell::DiggableWall));
    assert_eq!(shape[4], (vec2(-1, 0), VaultCell::DiggableWall));
    assert_eq!(shape[5], (vec2(0, 0), VaultCell::Interior));
    assert_eq!(shape[11], (vec2(2, 1), VaultCell::Interior));
    assert_eq!(Room { width: 0, height: 0 }.get_shape(), vec![(vec2(-1, -1), VaultCell::UndiggableWall)]);
    let mut widths = Vec::new();
    for seed in 1..40 {
        let room = Room::rand(&mut rng(seed));
        assert!(3 <= room.width && room.width < 10);
        assert!(3 <= room.height && room.height < 10);
        widths.push(room.width);
    }
    assert!(widths.iter().any(|w| *w != widths[0]));
}

#[test]
fn digger_records_what_is_dug() {
    let mut d = SectorDigger::new(Sector::new(0, 0, 3));
    assert_eq!(d.domain().len(), 38 * 18 - 2);
    assert_eq!(d.loc(vec2(2, 3)), Location::new(2, 3, 3));
    assert_eq!(d.up_portal(), None);
    assert_eq!(d.down_portal(), None);
    d.dig_chamber(&vec![vec2(1, 1), vec2(2, 1), vec2(3, 1)]);
    assert_eq!(
        d.spawn_places(),
        vec![Location::new(1, 1, 3), Location::new(2, 1, 3), Location::new(3, 1, 3)]
    );
    assert_eq!(d.terrain_at(Location::new(2, 1, 3)), Some(Terrain::Ground));
    assert_eq!(d.terrain_at(Location::new(2, 1, 2)), None);
    d.dig_corridor(&vec![vec2(3, 1), vec2(4, 1)]);
    assert_eq!(d.spawn_places(), vec![Location::new(1, 1, 3), Location::new(2, 1, 3)]);
    assert_eq!(d.terrain_at(Location::new(4, 1, 3)), Some(Terrain::Ground));
    d.add_door(vec2(2, 1));
    assert_eq!(d.terrain_at(Location::new(2, 1, 3)), Some(Terrain::Door));
    assert_eq!(d.spawn_places(), vec![Location::new(1, 1, 3)]);
    d.add_up_stairs(vec2(1, 0));
    assert_eq!(d.up_portal(), Some(Location::new(1, 0, 3)));
    assert_eq!(d.terrain_at(Location::new(1, 0, 3)), Some(Terrain::Gate));
    d.dig_chamber(&vec![vec2(9, 9), vec2(8, 8)]);
    d.add_down_stairs(vec2(8, 8));
    assert_eq!(d.down_portal(), Some(Location::new(8, 8, 3)));
    assert_eq!(d.terrain_at(Location::new(8, 8, 3)), Some(Terrain::Gate));
    // The cell in front of the stairs down is cleared.
    assert_eq!(d.terrain_at(Location::new(9, 9, 3)), Some(Terrain::Empty));
    assert_eq!(d.spawn_places(), vec![Location::new(1, 1, 3)]);
    d.set(Location::new(30, 3, 3), Terrain::Water);
    assert_eq!(d.terrain_at(Location::new(30, 3, 3)), Some(Terrain::Water));
    assert_eq!(d.written().len(), 12);
    assert_eq!(d.written()[0], (Location::new(1, 1, 3), Terrain::Ground));
    assert_eq!(d.written()[11], (Location::new(30, 3, 3), Terrain::Water));
    let room = d.sample_vault(&mut rng(5));
    assert!(3 <= room.width && room.width < 10);
    d.place_vault(&Room { width: 2, height: 1 }, vec2(20, 10));
    assert_eq!(d.terrain_at(Location::new(19, 9, 3)), Some(Terrain::Wall));
    assert_eq!(d.terrain_at(Location::new(20, 9, 3)), Some(Terrain::Wall));
    assert_eq!(d.terrain_at(Location::new(19, 10, 3)), Some(Terrain::Wall));
    assert_eq!(d.terrain_at(Location::new(20, 10, 3)), Some(Terrain::Ground));
    assert_eq!(d.terrain_at(Location::new(21, 10, 3)), Some(Terrain::Ground));
    assert_eq!(d.terrain_at(Location::new(22, 10, 3)), None);
    assert_eq!(d.written().len(), 18);
    d.place_vault(&Room { width: -1, height: 1 }, vec2(20, 10));
    assert_eq!(d.written().len(), 18);
}

#[test]
fn places_near_the_entrance_take_no_spawns() {
    let mut d = SectorDigger::new(Sector::new(0, 0, 1));
    // A corridor of thirty cells along a row, all of them fit for spawns.
    let row: Vec<CellVector> = (1..31).map(|x| vec2(x, 5)).collect();
    d.dig_chamber(&row);
    // A cell apart from the rest.
    d.dig_chamber(&vec![vec2(3, 9)]);
    d.add_up_stairs(vec2(1, 5));
    let near = d.places_within(Location::new(1, 5, 1), 3).to_vec();
    assert_eq!(
        near,
        vec![
            Location::new(1, 5, 1),
            Location::new(2, 5, 1),
            Location::new(3, 5, 1),
            Location::new(4, 5, 1)
        ]
    );
    assert_eq!(d.places_within(Location::new(1, 5, 1), 0).to_vec(), vec![Location::new(1, 5, 1)]);
    assert_eq!(d.places_within(Location::new(3, 9, 1), 100).to_vec(), vec![Location::new(3, 9, 1)]);
    // The start counts also where it is no open floor.
    assert_eq!(d.places_within(Location::new(0, 5, 1), 1).len(), 2);
    assert_eq!(d.places_within(Location::new(20, 20, 1), 5).len(), 1);
    d.clear_spawns_near_entrance(12);
    let left = d.spawn_places();
    assert_eq!(left.len(), 30 - 13 + 1);
    assert_eq!(left[0], Location::new(3, 9, 1));
    assert_eq!(left[1], Location::new(14, 5, 1));
    assert_eq!(left[left.len() - 1], Location::new(30, 5, 1));
}

#[test]
fn spawn_tables() {
    assert_eq!(all_forms().len(), 15);
    assert_eq!(
        spawn_table(true, 1),
        vec![EntitySpawn::Sword, EntitySpawn::Helmet, EntitySpawn::Scroll1]
    );
    assert_eq!(spawn_table(false, 1), vec![EntitySpawn::Snake, EntitySpawn::Dreg]);
    assert_eq!(spawn_table(true, 10).len(), 6);
    assert_eq!(spawn_table(false, 10).len(), 9);
    assert_eq!(spawn_table(false, 4).len(), 5);
    assert!(spawn_table(true, 0).is_empty());
    assert!(!spawn_table(false, 9).contains(&EntitySpawn::Player));
    let table = spawn_table(false, 10);
    let mut seen = Vec::new();
    for seed in 1..60 {
        let e = pick_form(&mut rng(seed), &table);
        assert!(table.contains(&e));
        seen.push(e);
    }
    assert!(seen.iter().any(|e| *e != seen[0]));
}

#[test]
fn bitmaps() {
    let raw: Vec<u8> = vec![1, 2, 3, 4, 5, 6, 7, 8, 9, 10, 11, 12, 13, 14, 15, 16, 0, 0, 0, 0, 255, 255, 255, 255];
    let b = Bitmap::from_rgba(3, 2, &raw).unwrap();
    assert_eq!((b.width(), b.height()), (3, 2));
    assert_eq!(b.pixel(0, 0), 0x01020304);
    assert_eq!(b.pixel(1, 0), 0x05060708);
    assert_eq!(b.pixel(0, 1), 0x0d0e0f10);
    assert_eq!(b.pixel(2, 1), 0xffffffff);
    assert!(Bitmap::from_rgba(2, 2, &raw).is_none());
    assert!(Bitmap::from_rgba(3, 2, &raw[..23].to_vec()).is_none());
    assert!(Bitmap::from_rgba(0, 0, &Vec::new()).is_some());
    assert!(Bitmap::new(2, 2, vec![1, 2, 3]).is_none());
    let b = Bitmap::new(2, 2, vec![1, 2, 3, 4]).unwrap();
    assert_eq!(b.pixel(1, 1), 4);
    assert_eq!(b.pixel(0, 1), 3);
    let data = png(2, 3, &[GROUND, WATER, 0x01020380, OTHER, 5, 6]);
    let b = Bitmap::from_png(&data).unwrap();
    assert_eq!((b.width(), b.height()), (2, 3));
    assert_eq!(b.pixel(0, 0), GROUND);
    assert_eq!(b.pixel(1, 0), WATER);
    assert_eq!(b.pixel(0, 1), 0x01020380);
    assert_eq!(b.pixel(1, 2), 6);
    assert!(Bitmap::from_png(&[1, 2, 3]).is_none());
    assert!(Bitmap::from_png(&data[..20]).is_none());
    assert!(Bitmap::from_png(&[]).is_none());
}

#[test]
fn bitmap_of_two_by_two_gives_ground_and_water() {
    // Two rows of terrain and the row that holds none.
    let data = png(2, 3, &[GROUND, WATER, WATER, OTHER, GRASS, GRASS]);
    for origin in [Location::new(0, 0, 0), Location::new(10, -3, 2)] {
        let mut w = Worldgen::blank(5);
        assert_eq!(w.load_map_bitmap(origin, &data), Ok(()));
        assert_eq!(w.get_terrain(origin), Terrain::Ground);
        assert_eq!(w.get_terrain(origin.shifted(vec2(1, 0))), Terrain::Water);
        assert_eq!(w.get_terrain(origin.shifted(vec2(0, 1))), Terrain::Water);
        let rest = if origin.z == 0 { Terrain::Ground } else { Terrain::Rock };
        // A colour that stands for nothing is skipped.
        assert_eq!(w.get_terrain(origin.shifted(vec2(1, 1))), rest);
        // The last row is no terrain.
        assert_eq!(w.get_terrain(origin.shifted(vec2(0, 2))), rest);
        assert_eq!(w.get_terrain(origin.shifted(vec2(1, 2))), rest);
        assert_eq!(w.get_terrain(origin.shifted(vec2(2, 0))), rest);
        assert_eq!(w.get_terrain(origin.shifted(vec2(-1, 0))), rest);
        assert_eq!(w.get_terrain(Location::new(origin.x, origin.y, origin.z + 1)), Terrain::Rock);
    }
    assert_eq!(Worldgen::default_terrain(Location::new(4, 4, 0)), Terrain::Ground);
    assert_eq!(Worldgen::default_terrain(Location::new(4, 4, 1)), Terrain::Rock);
    assert_eq!(Worldgen::default_terrain(Location::new(4, 4, -1)), Terrain::Rock);
    let mut w = Worldgen::blank(5);
    assert_eq!(w.load_map_bitmap(Location::new(0, 0, 0), &[9, 9]), Err(WorldgenError::BadBitmap));
    // At the end of the range of coordinates pixels fall away.
    let mut w = Worldgen::blank(5);
    w.load_bitmap(Location::new(i16::MAX, 0, 0), &Bitmap::new(2, 2, vec![WATER, WATER, 0, 0]).unwrap());
    assert_eq!(w.get_terrain(Location::new(i16::MAX, 0, 0)), Terrain::Water);
    assert_eq!(w.get_terrain(Location::new(i16::MIN, 0, 0)), Terrain::Ground);
}

#[test]
fn world_parts() {
    let mut w = Worldgen::blank(9);
    assert_eq!(w.seed(), 9);
    assert_eq!(w.player_entry(), Location::new(25, 0, 0));
    assert!(w.spawns().is_empty());
    let a = Location::new(3, 3, 0);
    let b = Location::new(7, 7, 1);
    assert_eq!(w.get_portal(a), None);
    w.portal(a, b);
    assert_eq!(w.get_portal(a), Some(b));
    assert_eq!(w.get_portal(b), None);
    assert_eq!(Portal::new(a, b), Portal { origin: a, destination: b });
    w.cave_entrance(a);
    assert_eq!(w.get_terrain(a), Terrain::Ground);
    assert_eq!(w.get_terrain(Location::new(4, 4, 0)), Terrain::Ground);
    for (x, y) in [(4, 3), (3, 4), (5, 4), (4, 5), (5, 5)] {
        assert_eq!(w.get_terrain(Location::new(x, y, 0)), Terrain::Rock);
    }
    w.set_terrain(a, Terrain::Gate);
    assert_eq!(w.get_terrain(a), Terrain::Gate);
}

#[test]
fn prefab_is_laid_with_its_spawns() {
    let mut prefab = Grid::new();
    prefab.insert(vec2(0, 0), MapCell::new_terrain(Terrain::Grass));
    prefab.insert(vec2(1, 0), MapCell::new_terrain(Terrain::Ground));
    prefab.insert(vec2(0, 1), MapCell::new_terrain(Terrain::Water));
    prefab.insert(vec2(1, 1), MapCell::new_bumper());
    prefab.push_spawn(vec2(1, 0), EntitySpawn::Ogre);
    prefab.push_spawn(vec2(1, 0), EntitySpawn::Player);
    prefab.push_spawn(vec2(0, 0), EntitySpawn::Snake);
    prefab.push_spawn(vec2(1, 1), EntitySpawn::Bug);
    let mut w = Worldgen::blank(1);
    let origin = Location::new(100, 50, 0);
    w.load_prefab(origin, &prefab);
    assert_eq!(w.get_terrain(Location::new(100, 50, 0)), Terrain::Grass);
    assert_eq!(w.get_terrain(Location::new(100, 51, 0)), Terrain::Water);
    assert_eq!(w.player_entry(), Location::new(101, 50, 0));
    assert_eq!(
        w.spawns(),
        &vec![
            (Location::new(100, 50, 0), EntitySpawn::Snake),
            (Location::new(101, 50, 0), EntitySpawn::Ogre)
        ]
    );
}

#[test]
fn sector_is_taken_into_the_world() {
    let mut w = Worldgen::blank(3);
    let mut d = SectorDigger::new(Sector::new(0, 0, 2));
    let mut area = Vec::new();
    for y in 3..9 {
        for x in 2..36 {
            area.push(vec2(x, y));
        }
    }
    d.dig_chamber(&area);
    d.add_up_stairs(vec2(3, 2));
    d.add_down_stairs(vec2(30, 2));
    let entrance = Location::new(40, 12, 1);
    let mut r = rng(3);
    assert_eq!(w.finish_sector(d, 2, &mut r, entrance), Ok(Location::new(30, 2, 2)));
    assert_eq!(w.get_terrain(Location::new(3, 2, 2)), Terrain::Gate);
    assert_eq!(w.get_terrain(Location::new(30, 2, 2)), Terrain::Gate);
    assert_eq!(w.get_terrain(Location::new(31, 3, 2)), Terrain::Empty);
    assert_eq!(w.get_terrain(Location::new(10, 5, 2)), Terrain::Ground);
    assert_eq!(w.get_terrain(Location::new(10, 5, 1)), Terrain::Rock);
    assert_eq!(w.get_terrain(Location::new(1, 1, 2)), Terrain::Rock);
    assert_eq!(w.get_portal(entrance), Some(Location::new(4, 3, 2)));
    assert_eq!(w.get_portal(Location::new(3, 2, 2)), Some(Location::new(39, 11, 1)));
    let spawns = w.spawns();
    assert_eq!(spawns.len(), 20);
    let items = spawn_table(true, 2);
    let mobs = spawn_table(false, 2);
    for (i, (loc, e)) in spawns.iter().enumerate() {
        assert_eq!(loc.z, 2);
        assert!(2 <= loc.x && loc.x < 36 && 3 <= loc.y && loc.y < 9);
        // More than twelve steps from the stairs up.
        assert!(vec2(loc.x as i32, loc.y as i32).hex_dist(vec2(3, 2)) > 12);
        if i < 10 {
            assert!(items.contains(e));
        } else {
            assert!(mobs.contains(e));
        }
    }
    for (i, a) in spawns.iter().enumerate() {
        for b in spawns.iter().skip(i + 1) {
            assert_ne!(a.0, b.0);
        }
    }
}

#[test]
fn sector_with_few_places_and_without_stairs() {
    let mut w = Worldgen::blank(3);
    let mut d = SectorDigger::new(Sector::new(0, 0, 1));
    d.dig_chamber(&vec![vec2(30, 5), vec2(31, 5), vec2(32, 5)]);
    d.add_up_stairs(vec2(3, 2));
    d.add_down_stairs(vec2(8, 8));
    assert_eq!(
        w.finish_sector(d, 1, &mut rng(8), Location::new(40, 12, 0)),
        Ok(Location::new(8, 8, 1))
    );
    let spawns = w.spawns();
    assert_eq!(spawns.len(), 3);
    assert!(spawn_table(true, 1).contains(&spawns[0].1));
    assert!(spawn_table(false, 1).contains(&spawns[1].1));
    assert!(spawn_table(false, 1).contains(&spawns[2].1));
    let mut w = Worldgen::blank(3);
    let mut d = SectorDigger::new(Sector::new(0, 0, 1));
    d.dig_chamber(&vec![vec2(30, 5)]);
    d.add_down_stairs(vec2(8, 8));
    assert_eq!(
        w.finish_sector(d, 1, &mut rng(8), Location::new(40, 12, 0)),
        Err(WorldgenError::MissingUpStairs { depth: 1 })
    );
    assert_eq!(w.get_terrain(Location::new(30, 5, 1)), Terrain::Rock);
    let mut d = SectorDigger::new(Sector::new(0, 0, 1));
    d.add_up_stairs(vec2(8, 8));
    assert_eq!(
        w.finish_sector(d, 1, &mut rng(8), Location::new(40, 12, 0)),
        Err(WorldgenError::MissingDownStairs { depth: 1 })
    );
    assert_eq!(w.get_portal(Location::new(40, 12, 0)), None);
    assert!(w.spawns().is_empty());
}

fn same_world(a: &Worldgen, b: &Worldgen) -> bool {
    for z in 0..=10 {
        for y in -2..24 {
            for x in -2..60 {
                let l = Location::new(x, y, z);
                if a.get_terrain(l) != b.get_terrain(l) || a.get_portal(l) != b.get_portal(l) {
                    return false;
                }
            }
        }
    }
    true
}

#[test]
fn world_is_made_of_surface_and_ten_depths() {
    let data = overland();
    let w = Worldgen::new(1234, &data, &Hall).ok().unwrap();
    assert_eq!(w.seed(), 1234);
    assert_eq!(w.player_entry(), Location::new(25, 0, 0));
    // The surface.
    assert_eq!(w.get_terrain(Location::new(0, 0, 0)), Terrain::Water);
    assert_eq!(w.get_terrain(Location::new(1, 0, 0)), Terrain::Ground);
    assert_eq!(w.get_terrain(Location::new(2, 0, 0)), Terrain::Grass);
    assert_eq!(w.get_terrain(Location::new(2, 20, 0)), Terrain::Ground);
    assert_eq!(w.get_terrain(Location::new(-5, 0, 0)), Terrain::Ground);
    // The way down.
    assert_eq!(w.get_terrain(Location::new(40, 12, 0)), Terrain::Gate);
    assert_eq!(w.get_terrain(Location::new(41, 13, 0)), Terrain::Empty);
    assert_eq!(w.get_terrain(Location::new(41, 12, 0)), Terrain::Rock);
    assert_eq!(w.get_terrain(Location::new(42, 14, 0)), Terrain::Rock);
    // Stairs lead from depth to depth.
    let mut at = Location::new(40, 12, 0);
    for depth in 1..=10 {
        let below = w.get_portal(at).unwrap();
        assert_eq!(below.z, depth);
        let up = Location::new(5, 2, depth);
        assert_eq!(below, Location::new(6, 3, depth));
        assert_eq!(w.get_terrain(up), Terrain::Gate);
        assert_eq!(w.get_portal(up), Some(Location::new(at.x - 1, at.y - 1, depth - 1)));
        assert_eq!(w.get_terrain(Location::new(10, 4, depth)), Terrain::Ground);
        assert_eq!(w.get_terrain(Location::new(0, 0, depth)), Terrain::Rock);
        let down: Vec<i16> = (20..40)
            .filter(|x| w.get_terrain(Location::new(*x, 2, depth)) == Terrain::Gate)
            .collect();
        assert_eq!(down.len(), 1);
        at = Location::new(down[0], 2, depth);
    }
    assert_eq!(w.get_portal(at), None);
    assert_eq!(w.get_terrain(Location::new(10, 4, 11)), Terrain::Rock);
    assert_eq!(w.spawns().len(), 200);
    for (i, (loc, e)) in w.spawns().iter().enumerate() {
        let depth = 1 + (i / 20) as i16;
        assert_eq!(loc.z, depth);
        assert_eq!(w.get_terrain(*loc), Terrain::Ground);
        let table = spawn_table(i % 20 < 10, depth);
        assert!(table.contains(e));
    }
}

#[test]
fn world_is_not_made_without_stairs_or_surface() {
    let data = overland();
    assert_eq!(
        Worldgen::new(5, &data, &Forgetful).err(),
        Some(WorldgenError::MissingDownStairs { depth: 1 })
    );
    assert_eq!(
        Worldgen::new(5, &data, &Idle).err(),
        Some(WorldgenError::MissingUpStairs { depth: 1 })
    );
    assert_eq!(Worldgen::new(5, &data[..30], &Hall).err(), Some(WorldgenError::BadBitmap));
}

#[test]
fn other_seeds_give_other_worlds() {
    let data = overland();
    let a = Worldgen::new(1, &data, &Hall).ok().unwrap();
    let b = Worldgen::new(2, &data, &Hall).ok().unwrap();
    let c = Worldgen::new(3, &data, &Hall).ok().unwrap();
    assert!(!same_world(&a, &b) || !same_world(&a, &c) || a.spawns() != b.spawns());
}

#[test]
fn test_determinism() {
    let mut rng = rand::thread_rng();
    let mut seed: u32 = rng.gen();
    while seed == 0 {
        seed = rng.gen();
    }
    let data = overland();
    let mut gen = Worldgen::new(seed, &data, &Hall).ok().unwrap();

    // Build the value repeatedly using the same seed and see that they are all equal.
    for _ in 1..4 {
        let second = Worldgen::new(seed, &data, &Hall).ok().unwrap();

        assert_eq!(gen.seed(), second.seed());
        assert!(same_world(&gen, &second));
        assert!(gen.spawns() == second.spawns());
        assert_eq!(gen.player_entry(), second.player_entry());

        gen = second;
    }
}
