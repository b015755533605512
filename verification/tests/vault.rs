use dungeon_world::cell::{EntitySpawn, VaultKind};
use dungeon_world::geom::vec2;
use dungeon_world::grid::Grid;
use dungeon_world::rooms::MapError;
use dungeon_world::terrain::Terrain;

#[test]
fn vault_glyphs() {
    let text = "\
#####
#.~.#
#.I.+
#a<>#
%####
_ +";
    let v = Grid::new_vault(text).unwrap();
    assert_eq!(v.len(), 27);
    // Walls at the edge are shell and cannot be dug.
    let c = v.get(vec2(0, 0)).unwrap();
    assert_eq!(c.terrain, Terrain::Wall);
    assert_eq!(c.vault_kind, Some(VaultKind::Border));
    assert!(!c.can_dig);
    // The floor is protected.
    let c = v.get(vec2(1, 1)).unwrap();
    assert_eq!(c.terrain, Terrain::Ground);
    assert_eq!(c.vault_kind, Some(VaultKind::Interior));
    assert!(c.can_dig);
    assert!(c.spawns.is_empty());
    assert_eq!(v.get(vec2(2, 1)).unwrap().terrain, Terrain::Water);
    assert_eq!(v.get(vec2(2, 2)).unwrap().terrain, Terrain::Pillar);
    assert_eq!(v.get(vec2(2, 3)).unwrap().terrain, Terrain::Entrance);
    assert_eq!(v.get(vec2(3, 3)).unwrap().terrain, Terrain::Exit);
    // A door at the edge is a shell wall that can be dug.
    let c = v.get(vec2(4, 2)).unwrap();
    assert_eq!(c.terrain, Terrain::Wall);
    assert_eq!(c.vault_kind, Some(VaultKind::Border));
    assert!(c.can_dig);
    // A monster waits on ground.
    let c = v.get(vec2(1, 3)).unwrap();
    assert_eq!(c.terrain, Terrain::Ground);
    assert_eq!(c.spawns, vec![EntitySpawn::Dreg]);
    // An undiggable blank.
    let c = v.get(vec2(0, 4)).unwrap();
    assert_eq!(c.terrain, Terrain::Empty);
    assert!(!c.can_dig);
    assert_eq!(c.vault_kind, Some(VaultKind::Interior));
    assert!(!c.is_bumper());
    // A bumper.
    let c = v.get(vec2(0, 5)).unwrap();
    assert!(c.is_bumper());
    assert_eq!(c.vault_kind, None);
    // Blanks are undefined.
    assert!(!v.contains(vec2(1, 5)));
    assert!(v.contains(vec2(2, 5)));
    assert_eq!(v.entrances(), vec![vec2(2, 3)]);
    assert_eq!(v.exits(), vec![vec2(3, 3)]);
}

#[test]
fn vault_walls_and_doors_within() {
    // The middle cells have all six neighbours defined.
    let v = Grid::new_vault(".....\n.#+..\n.....").unwrap();
    let wall = v.get(vec2(1, 1)).unwrap();
    assert_eq!(wall.terrain, Terrain::Wall);
    assert_eq!(wall.vault_kind, Some(VaultKind::Interior));
    assert!(wall.can_dig);
    let door = v.get(vec2(2, 1)).unwrap();
    assert_eq!(door.terrain, Terrain::Door);
    assert_eq!(door.vault_kind, Some(VaultKind::Interior));
    // Ground at the edge is still protected floor.
    let g = v.get(vec2(0, 0)).unwrap();
    assert_eq!(g.vault_kind, Some(VaultKind::Interior));
    // With the cell to the north undefined the wall is at the edge:
    // (-1, -1) is a hex neighbour.
    let v = Grid::new_vault(" ....\n.#+..\n.....").unwrap();
    assert!(!v.contains(vec2(0, 0)));
    let wall = v.get(vec2(1, 1)).unwrap();
    assert_eq!(wall.vault_kind, Some(VaultKind::Border));
    assert!(!wall.can_dig);
    assert_eq!(v.get(vec2(2, 1)).unwrap().terrain, Terrain::Door);
    // (1, -1) is none: with (2, 0) undefined the wall stays within, and
    // the door, to the south of that cell, is at the edge.
    let v = Grid::new_vault(".. ..\n.#+..\n.....").unwrap();
    assert_eq!(v.get(vec2(1, 1)).unwrap().vault_kind, Some(VaultKind::Interior));
    assert_eq!(v.get(vec2(2, 1)).unwrap().terrain, Terrain::Wall);
    // (3, 0) is no neighbour of either.
    let v = Grid::new_vault("... .\n.#+..\n.....").unwrap();
    assert_eq!(v.get(vec2(1, 1)).unwrap().vault_kind, Some(VaultKind::Interior));
    assert_eq!(v.get(vec2(2, 1)).unwrap().terrain, Terrain::Door);
    // (3, 2), to the south, is one of the door.
    let v = Grid::new_vault(".....\n.#+..\n...").unwrap();
    assert_eq!(v.get(vec2(1, 1)).unwrap().vault_kind, Some(VaultKind::Interior));
    let door = v.get(vec2(2, 1)).unwrap();
    assert_eq!(door.terrain, Terrain::Wall);
    assert_eq!(door.vault_kind, Some(VaultKind::Border));
    assert!(door.can_dig);
}

#[test]
fn vault_unknown_glyph() {
    assert_eq!(
        Grid::new_vault("##\n#?#\n").err(),
        Some(MapError::UnknownGlyph { glyph: '?', x: 1, y: 1 })
    );
    // The first one is named.
    assert_eq!(
        Grid::new_vault("#.x\n#y").err(),
        Some(MapError::UnknownGlyph { glyph: 'x', x: 2, y: 0 })
    );
    assert_eq!(
        Grid::new_vault("\n\n  \u{e9}").err(),
        Some(MapError::UnknownGlyph { glyph: '\u{e9}', x: 2, y: 2 })
    );
    assert_eq!(
        Grid::new_vault("#\t#").err(),
        Some(MapError::UnknownGlyph { glyph: '\t', x: 1, y: 0 })
    );
    assert_eq!(Grid::new_vault("").unwrap().len(), 0);
    assert_eq!(Grid::new_vault(" \n \n").unwrap().len(), 0);
}

#[test]
fn vault_is_placed_without_its_bumpers() {
    let v = Grid::new_vault("###\n#.+_\n###").unwrap();
    let bare = Grid::new_vault("###\n#.+\n###").unwrap();
    assert_eq!(v.len(), 10);
    let mut g = Grid::new();
    let mut base = Vec::new();
    for y in 0..12 {
        for x in 0..12 {
            base.push(vec2(x, y));
        }
    }
    let mut g2 = Grid::new_base(&base);
    assert!(!g.is_valid_placement(vec2(2, 2), &v));
    assert!(g2.is_valid_placement(vec2(2, 2), &v));
    // The bumper may not reach outside; the walls may.
    assert!(!g2.is_valid_placement(vec2(9, 0), &v));
    assert!(g2.is_valid_placement(vec2(9, 0), &bare));
    assert!(g2.is_valid_placement(vec2(8, 0), &v));
    g2.place_room_at(vec2(2, 2), &v);
    g.place_room_at(vec2(2, 2), &v);
    assert_eq!(g.len(), 9);
    assert!(!g.contains(vec2(5, 3)));
    assert_eq!(g2.get(vec2(5, 3)).unwrap().terrain, Terrain::Empty);
    assert_eq!(g2.get(vec2(5, 3)).unwrap().vault_kind, None);
    assert_eq!(g2.get(vec2(3, 3)).unwrap().terrain, Terrain::Ground);
    assert_eq!(g2.get(vec2(4, 3)).unwrap().terrain, Terrain::Wall);
    assert!(g2.get(vec2(4, 3)).unwrap().can_dig);
    assert!(g2.get(vec2(4, 3)).unwrap().is_border());
    assert!(!g2.get(vec2(2, 3)).unwrap().can_dig);
    assert_eq!(g2.open_ground(), vec![vec2(3, 3)]);
    // The room is walled in, and its door can be dug: it is joined to the
    // rest.
    g2.insert(vec2(9, 9), dungeon_world::cell::MapCell::new_terrain(Terrain::Ground));
    assert_eq!(g2.open_regions().len(), 2);
    let mut r = <rand::XorShiftRng as rand::SeedableRng<[u32; 4]>>::from_seed([4, 4, 4, 4]);
    let joined = g2.join_disjoint_regions(&mut r).unwrap();
    assert_eq!(joined.open_regions().len(), 1);
    assert_eq!(joined.get(vec2(4, 3)).unwrap().terrain, Terrain::Door);
}
