use dungeon_world::caves::{cave_plan, Caves, CAVE_CELLS};
use dungeon_world::digger::{Dungeon, MapGen, SectorDigger};
use dungeon_world::geom::{vec2, CellVector};
use dungeon_world::location::Location;
use dungeon_world::regions::separate_regions;
use dungeon_world::sector::Sector;
use dungeon_world::terrain::Terrain;
use dungeon_world::worldgen::Worldgen;
use rand::{SeedableRng, XorShiftRng};

fn rng(seed: u32) -> XorShiftRng {
    XorShiftRng::from_seed([seed, seed, seed, seed])
}

fn checkers() -> Vec<u8> {
    let mut raw = Vec::new();
    for y in 0..5u32 {
        for x in 0..6u32 {
            let c: u32 = if (x + y) % 2 == 0 { 0x00ff00ff } else { 0x008000ff };
            raw.extend_from_slice(&c.to_be_bytes());
        }
    }
    let img = image::RgbaImage::from_raw(6, 5, raw).unwrap();
    let mut out = std::io::Cursor::new(Vec::new());
    image::DynamicImage::ImageRgba8(img)
        .write_to(&mut out, image::ImageOutputFormat::Png)
        .unwrap();
    out.into_inner()
}

#[test]
fn cave_plan_is_a_connected_cave_in_the_domain() {
    let domain = Sector::new(0, 0, 1).domain();
    let mut sizes = Vec::new();
    for seed in 1..8 {
        let plan = cave_plan(&mut rng(seed), &domain).unwrap();
        assert!(!plan.cells.is_empty() && plan.cells.len() <= CAVE_CELLS);
        assert_eq!(plan.up, plan.cells[0]);
        assert_eq!(plan.up, domain[domain.len() / 2]);
        for (i, c) in plan.cells.iter().enumerate() {
            assert!(domain.contains(c));
            assert!(!plan.cells[..i].contains(c));
        }
        assert_eq!(separate_regions(&plan.cells).len(), 1);
        assert!(domain.contains(&plan.down));
        let mut with_down = plan.cells.clone();
        with_down.push(plan.down);
        assert_eq!(separate_regions(&with_down).len(), 1);
        let again = cave_plan(&mut rng(seed), &domain).unwrap();
        assert_eq!(again.cells, plan.cells);
        assert_eq!(again.down, plan.down);
        sizes.push(plan.cells.len());
    }
    assert!(sizes.iter().all(|n| *n > 100));
}

#[test]
fn cave_plan_in_small_domains() {
    assert!(cave_plan(&mut rng(1), &Vec::new()).is_none());
    let one = vec![vec2(4, 4)];
    let plan = cave_plan(&mut rng(1), &one).unwrap();
    assert_eq!(plan.cells, one);
    assert_eq!(plan.up, vec2(4, 4));
    assert_eq!(plan.down, vec2(4, 4));
    // Two cells that do not touch: the cave stays where it starts.
    let apart: Vec<CellVector> = vec![vec2(0, 0), vec2(5, 5)];
    let plan = cave_plan(&mut rng(1), &apart).unwrap();
    assert_eq!(plan.cells, vec![vec2(5, 5)]);
    // A row of cells is dug whole, given draws enough.
    let row: Vec<CellVector> = (0..9).map(|x| vec2(x, 0)).collect();
    let plan = cave_plan(&mut rng(2), &row).unwrap();
    assert_eq!(plan.cells.len(), 9);
    assert_eq!(plan.cells[0], vec2(4, 0));
}

#[test]
fn caves_dig_a_sector() {
    let mut d = SectorDigger::new(Sector::new(0, 0, 4));
    let domain = d.domain();
    Caves.dig(&mut rng(9), &mut d, &domain);
    let up = d.up_portal().unwrap();
    let down = d.down_portal().unwrap();
    assert_eq!(up, d.loc(domain[domain.len() / 2]));
    assert_eq!(d.terrain_at(up), Some(Terrain::Gate));
    assert_eq!(d.terrain_at(down), Some(Terrain::Gate));
    assert!(d.spawn_places().len() > 100);
    let mut nothing = SectorDigger::new(Sector::new(0, 0, 4));
    Caves.dig(&mut rng(9), &mut nothing, &Vec::new());
    assert!(nothing.written().is_empty());
    let _ = nothing.sample_vault(&mut rng(1));
}

#[test]
fn world_of_caves() {
    let data = checkers();
    let w = Worldgen::new(42, &data, &Caves).ok().unwrap();
    assert_eq!(w.get_terrain(Location::new(0, 0, 0)), Terrain::Grass);
    assert_eq!(w.get_terrain(Location::new(1, 0, 0)), Terrain::Tree);
    assert_eq!(w.get_terrain(Location::new(0, 4, 0)), Terrain::Ground);
    let mut at = Location::new(40, 12, 0);
    for depth in 1..=10 {
        let below = w.get_portal(at).unwrap();
        assert_eq!(below.z, depth);
        let up = Location::new(below.x - 1, below.y - 1, depth);
        assert_eq!(w.get_terrain(up), Terrain::Gate);
        assert_eq!(w.get_portal(up), Some(Location::new(at.x - 1, at.y - 1, depth - 1)));
        let mut gates = Vec::new();
        for y in 0..18 {
            for x in 0..38 {
                let l = Location::new(x, y, depth);
                if w.get_terrain(l) == Terrain::Gate && l != up {
                    gates.push(l);
                }
            }
        }
        assert_eq!(gates.len(), 1);
        at = gates[0];
    }
    let again = Worldgen::new(42, &data, &Caves).ok().unwrap();
    assert_eq!(w.spawns(), again.spawns());
    for z in 0..=10 {
        for y in 0..18 {
            for x in 0..38 {
                let l = Location::new(x, y, z);
                assert_eq!(w.get_terrain(l), again.get_terrain(l));
                assert_eq!(w.get_portal(l), again.get_portal(l));
            }
        }
    }
}
