use dungeon_world::cell::{EntitySpawn, MapCell, VaultKind};
use dungeon_world::geom::{vec2, CellVector, Dir6};
use dungeon_world::grid::Grid;
use dungeon_world::regions::{flood_fill, separate_regions};
use dungeon_world::rooms::MapError;
use dungeon_world::terrain::Terrain;
use rand::{SeedableRng, XorShiftRng};

fn rng(seed: u32) -> XorShiftRng {
    XorShiftRng::from_seed([seed, seed, seed, seed])
}

fn block(x0: i32, y0: i32, x1: i32, y1: i32) -> Vec<CellVector> {
    let mut out = Vec::new();
    for y in y0..=y1 {
        for x in x0..=x1 {
            out.push(vec2(x, y));
        }
    }
    out
}

/// A base of undug cells with some of them dug to ground.
fn dug_base(x1: i32, y1: i32, floor: &[(i32, i32)]) -> Grid {
    let mut g = Grid::new_base(&block(0, 0, x1, y1));
    for &(x, y) in floor {
        g.insert(vec2(x, y), MapCell::new_terrain(Terrain::Ground));
    }
    g
}

#[test]
fn hex_distance_values() {
    let o = vec2(0, 0);
    assert_eq!(vec2(3, 2).hex_dist(o), 3);
    assert_eq!(vec2(-3, -5).hex_dist(o), 5);
    assert_eq!(vec2(3, -2).hex_dist(o), 5);
    assert_eq!(vec2(-1, 4).hex_dist(o), 5);
    assert_eq!(vec2(0, 4).hex_dist(o), 4);
    assert_eq!(vec2(0, 0).hex_dist(o), 0);
    assert_eq!(vec2(i32::MAX, i32::MIN).hex_dist(vec2(i32::MIN, i32::MAX)), 2 * (u32::MAX as i64));
}

#[test]
fn directions_and_steps() {
    assert_eq!(Dir6::North.to_v2(), vec2(-1, -1));
    assert_eq!(Dir6::Northeast.to_v2(), vec2(0, -1));
    assert_eq!(Dir6::Southeast.to_v2(), vec2(1, 0));
    assert_eq!(Dir6::South.to_v2(), vec2(1, 1));
    assert_eq!(Dir6::Southwest.to_v2(), vec2(0, 1));
    assert_eq!(Dir6::Northwest.to_v2(), vec2(-1, 0));
    assert!(!Dir6::North.is_fake_isometric());
    assert!(!Dir6::South.is_fake_isometric());
    assert!(Dir6::Northeast.is_fake_isometric());
    assert!(Dir6::Southwest.is_fake_isometric());
    assert_eq!(vec2(5, 5).step(Dir6::South), Some(vec2(6, 6)));
    assert_eq!(vec2(i32::MAX, 0).step(Dir6::Southeast), None);
    assert_eq!(vec2(i32::MIN, 0).offset(-1, 0), None);
    assert_eq!(Dir6::from_index(7), Dir6::Northeast);
}

#[test]
fn cell_builders() {
    let c = MapCell::new_terrain(Terrain::Wall);
    assert_eq!(c.terrain, Terrain::Wall);
    assert!(c.can_dig);
    assert!(c.spawns.is_empty());
    assert_eq!(c.vault_kind, None);
    assert!(!c.is_walkable());
    assert!(!c.is_bumper());
    let c = c.undiggable().border();
    assert!(!c.can_dig);
    assert!(c.is_border());
    assert!(!c.is_interior());
    let d = c.to_door();
    assert_eq!(d.terrain, Terrain::Door);
    assert!(d.is_walkable());
    assert!(!d.can_dig);
    assert!(d.is_border());
    assert!(MapCell::new_bumper().is_bumper());
    assert!(MapCell::default().is_bumper());
    assert!(!MapCell::default().undiggable().is_bumper());
    assert!(MapCell::new_terrain(Terrain::Ground).interior().is_interior());
}

#[test]
fn insert_get_contains_push_spawn() {
    let mut g = Grid::new();
    assert_eq!(g.len(), 0);
    assert!(!g.contains(vec2(1, 2)));
    assert!(g.get(vec2(1, 2)).is_none());
    g.insert(vec2(1, 2), MapCell::new_terrain(Terrain::Water));
    g.insert(vec2(i32::MIN, i32::MAX), MapCell::new_terrain(Terrain::Ground));
    assert_eq!(g.len(), 2);
    assert!(g.contains(vec2(1, 2)));
    assert!(!g.contains(vec2(2, 1)));
    assert_eq!(g.get(vec2(1, 2)).unwrap().terrain, Terrain::Water);
    assert_eq!(g.get(vec2(i32::MIN, i32::MAX)).unwrap().terrain, Terrain::Ground);
    g.insert(vec2(1, 2), MapCell::new_terrain(Terrain::Wall));
    assert_eq!(g.len(), 2);
    assert_eq!(g.get(vec2(1, 2)).unwrap().terrain, Terrain::Wall);
    g.push_spawn(vec2(1, 2), EntitySpawn::Dreg);
    g.push_spawn(vec2(1, 2), EntitySpawn::Ogre);
    assert_eq!(g.get(vec2(1, 2)).unwrap().spawns, vec![EntitySpawn::Dreg, EntitySpawn::Ogre]);
    g.push_spawn(vec2(9, 9), EntitySpawn::Dreg);
    assert_eq!(g.len(), 2);
    assert_eq!(g.get_near(vec2(0, 0), 1, 2).unwrap().terrain, Terrain::Wall);
    assert!(g.get_near(vec2(i32::MAX, 0), 1, 0).is_none());
}

#[test]
fn positions_are_sorted_whatever_the_insertion_order() {
    let pts = [(3, 1), (-2, 7), (3, -4), (0, 0), (-2, -9), (100, 2), (3, 0)];
    let mut a = Grid::new();
    for &(x, y) in pts.iter() {
        a.insert(vec2(x, y), MapCell::default());
    }
    let mut b = Grid::new();
    for &(x, y) in pts.iter().rev() {
        b.insert(vec2(x, y), MapCell::default());
    }
    let expected = vec![
        vec2(-2, -9),
        vec2(-2, 7),
        vec2(0, 0),
        vec2(3, -4),
        vec2(3, 0),
        vec2(3, 1),
        vec2(100, 2),
    ];
    assert_eq!(a.positions(), expected);
    assert_eq!(b.positions(), expected);
}

#[test]
fn queries_answer_alike_on_equal_grids() {
    let cells = [
        (4, 4, Terrain::Entrance),
        (1, 9, Terrain::Exit),
        (2, 2, Terrain::Ground),
        (-3, 5, Terrain::Entrance),
        (2, 1, Terrain::Door),
        (0, 0, Terrain::Wall),
        (7, -7, Terrain::Exit),
        (2, 3, Terrain::Water),
    ];
    let mut a = Grid::new();
    for &(x, y, t) in cells.iter() {
        a.insert(vec2(x, y), MapCell::new_terrain(t));
    }
    let mut b = Grid::new();
    for &(x, y, t) in cells.iter().rev() {
        b.insert(vec2(x, y), MapCell::new_terrain(t));
    }
    a.insert(vec2(5, 5), MapCell::new_terrain(Terrain::Door).border());
    b.insert(vec2(5, 5), MapCell::new_terrain(Terrain::Door).border());
    assert_eq!(a.entrances(), vec![vec2(-3, 5), vec2(4, 4)]);
    assert_eq!(a.exits(), vec![vec2(1, 9), vec2(7, -7)]);
    assert_eq!(
        a.open_ground(),
        vec![vec2(-3, 5), vec2(1, 9), vec2(2, 1), vec2(2, 2), vec2(4, 4), vec2(7, -7)]
    );
    for _ in 0..3 {
        assert_eq!(a.entrances(), b.entrances());
        assert_eq!(a.exits(), b.exits());
        assert_eq!(a.open_ground(), b.open_ground());
        let fa = a.find_positions(|p, c| c.terrain == Terrain::Door || p.x < 0);
        let fb = b.find_positions(|p, c| c.terrain == Terrain::Door || p.x < 0);
        assert_eq!(fa, vec![vec2(-3, 5), vec2(2, 1), vec2(5, 5)]);
        assert_eq!(fa, fb);
    }
}

#[test]
fn plain_room_of_four_by_three() {
    let room = Grid::plain_room(4, 3);
    assert_eq!(room.len(), 30);
    let mut ground = 0;
    let mut border = 0;
    let mut undiggable = 0;
    for p in room.positions() {
        let c = room.get(p).unwrap();
        match c.terrain {
            Terrain::Ground => {
                assert_eq!(c.vault_kind, Some(VaultKind::Interior));
                assert!(c.can_dig);
                assert!(0 <= p.x && p.x < 4 && 0 <= p.y && p.y < 3);
                ground += 1;
            }
            Terrain::Wall => {
                assert_eq!(c.vault_kind, Some(VaultKind::Border));
                if !c.can_dig {
                    assert!((p.x == -1 || p.x == 4) && (p.y == -1 || p.y == 3));
                    undiggable += 1;
                } else {
                    border += 1;
                }
            }
            other => panic!("unexpected terrain {:?}", other),
        }
    }
    assert_eq!(ground, 12);
    assert_eq!(border, 14);
    assert_eq!(undiggable, 4);
}

#[test]
fn random_plain_room_has_a_floor_of_two_to_seven() {
    for seed in 1..40 {
        let mut r = rng(seed);
        let room = Grid::new_plain_room(&mut r);
        let floor = room.open_ground();
        let w = floor.iter().map(|p| p.x).max().unwrap() + 1;
        let h = floor.iter().map(|p| p.y).max().unwrap() + 1;
        assert!(2 <= w && w < 8, "width {}", w);
        assert!(2 <= h && h < 8, "height {}", h);
        assert_eq!(floor.len() as i32, w * h);
        assert_eq!(room.len() as i32, (w + 2) * (h + 2));
    }
    let sizes: Vec<usize> = (1..40).map(|s| Grid::new_plain_room(&mut rng(s)).len()).collect();
    assert!(sizes.iter().any(|&n| n != sizes[0]));
}

#[test]
fn new_base_defines_empty_cells() {
    let g = Grid::new_base(&vec![vec2(1, 1), vec2(0, 5), vec2(1, 1)]);
    assert_eq!(g.positions(), vec![vec2(0, 5), vec2(1, 1)]);
    let c = g.get(vec2(0, 5)).unwrap();
    assert_eq!(c.terrain, Terrain::Empty);
    assert!(c.can_dig);
    assert_eq!(c.vault_kind, None);
}

#[test]
fn stamped_room_cannot_be_stamped_again() {
    let room = Grid::plain_room(3, 3);
    let offset = vec2(10, -4);
    let mut g = Grid::new();
    assert!(!g.is_valid_placement(offset, &room));
    g.place_room_at(offset, &room);
    assert_eq!(g.len(), 25);
    assert_eq!(g.get(vec2(10, -4)).unwrap().terrain, Terrain::Ground);
    assert!(g.get(vec2(10, -4)).unwrap().is_interior());
    assert_eq!(g.get(vec2(9, -5)).unwrap().terrain, Terrain::Wall);
    assert!(!g.is_valid_placement(offset, &room));
}

#[test]
fn room_fits_on_undug_base_and_not_twice() {
    let room = Grid::plain_room(2, 2);
    let mut g = Grid::new_base(&block(0, 0, 11, 11));
    assert!(g.is_valid_placement(vec2(1, 1), &room));
    // The floor may not reach outside the base.
    assert!(!g.is_valid_placement(vec2(11, 11), &room));
    // The wall shell may.
    assert!(g.is_valid_placement(vec2(0, 0), &room));
    let sites = g.room_positions(&room);
    assert_eq!(sites.len(), 11 * 11);
    assert_eq!(sites[0], vec2(0, 0));
    assert_eq!(sites[sites.len() - 1], vec2(10, 10));
    g.place_room_at(vec2(1, 1), &room);
    assert!(!g.is_valid_placement(vec2(1, 1), &room));
    assert!(!g.is_valid_placement(vec2(2, 2), &room));
    // One column further the two wall shells would stand side by side.
    assert!(!g.is_valid_placement(vec2(5, 1), &room));
    // Sharing the wall is fine.
    assert!(g.is_valid_placement(vec2(4, 1), &room));
    // So is a gap between the walls.
    assert!(g.is_valid_placement(vec2(6, 1), &room));
}

#[test]
fn stamping_makes_doors_and_keeps_what_cannot_be_dug() {
    let room = Grid::plain_room(2, 2);
    let mut g = Grid::new_base(&block(0, 0, 9, 9));
    g.insert(vec2(0, 2), MapCell::new_terrain(Terrain::Ground));
    g.insert(vec2(2, 0), MapCell::default().undiggable());
    let mut bumper = Grid::plain_room(2, 2);
    bumper.insert(vec2(5, 5), MapCell::new_bumper());
    assert!(g.is_valid_placement(vec2(1, 1), &room));
    g.place_room_at(vec2(1, 1), &bumper);
    // A diggable wall over dug ground becomes a door.
    let door = g.get(vec2(0, 2)).unwrap();
    assert_eq!(door.terrain, Terrain::Door);
    assert!(door.is_border());
    // A wall over what cannot be dug cannot be dug.
    let wall = g.get(vec2(2, 0)).unwrap();
    assert_eq!(wall.terrain, Terrain::Wall);
    assert!(!wall.can_dig);
    let other = g.get(vec2(1, 0)).unwrap();
    assert!(other.can_dig);
    // The bumper wrote nothing.
    let kept = g.get(vec2(6, 6)).unwrap();
    assert_eq!(kept.terrain, Terrain::Empty);
    assert_eq!(kept.vault_kind, None);
}

#[test]
fn no_two_doors_side_by_side() {
    let room = Grid::plain_room(2, 2);
    let mut g = Grid::new_base(&block(0, 0, 9, 9));
    // Two dug cells under neighbouring cells of the west wall.
    g.insert(vec2(0, 1), MapCell::new_terrain(Terrain::Ground));
    assert!(g.is_valid_placement(vec2(1, 1), &room));
    g.insert(vec2(0, 2), MapCell::new_terrain(Terrain::Ground));
    assert!(!g.is_valid_placement(vec2(1, 1), &room));
}

#[test]
fn interior_does_not_go_on_what_cannot_be_dug() {
    let room = Grid::plain_room(2, 2);
    let mut g = Grid::new_base(&block(0, 0, 9, 9));
    g.insert(vec2(2, 2), MapCell::default().undiggable());
    assert!(!g.is_valid_placement(vec2(1, 1), &room));
    assert!(!g.is_valid_placement(vec2(2, 2), &room));
    assert!(g.is_valid_placement(vec2(3, 3), &room));
    assert!(g.is_valid_placement(vec2(4, 4), &room));
}

#[test]
fn place_room_reports_no_room_left() {
    let room = Grid::plain_room(3, 3);
    let mut g = Grid::new_base(&block(0, 0, 1, 1));
    let before = g.positions();
    assert_eq!(g.place_room(&mut rng(7), &room), Err(MapError::NoRoomLeft));
    assert_eq!(g.positions(), before);
    let mut empty = Grid::new();
    assert_eq!(empty.place_room(&mut rng(7), &room), Err(MapError::NoRoomLeft));
}

#[test]
fn place_room_stamps_at_a_valid_site() {
    let room = Grid::plain_room(2, 3);
    let mut picked = Vec::new();
    for seed in 1..30 {
        let mut g = Grid::new_base(&block(0, 0, 7, 7));
        let sites = g.room_positions(&room);
        assert_eq!(g.place_room(&mut rng(seed), &room), Ok(()));
        let floor = g.open_ground();
        assert_eq!(floor.len(), 6);
        assert!(sites.contains(&floor[0]));
        assert!(g.get(floor[0]).unwrap().is_interior());
        picked.push(floor[0]);
    }
    assert!(picked.iter().any(|p| *p != picked[0]));
}

#[test]
fn flood_fill_finds_the_connected_part() {
    let pts = vec![
        vec2(5, 5),
        vec2(0, 0),
        vec2(1, 1),
        vec2(1, 0),
        vec2(6, 5),
        vec2(3, 3),
        vec2(0, 0),
        // (1, -1) is no hex neighbour of (0, 0).
        vec2(1, -1),
    ];
    assert_eq!(flood_fill(&pts, vec2(1, 1)), vec![vec2(0, 0), vec2(1, -1), vec2(1, 0), vec2(1, 1)]);
    assert_eq!(flood_fill(&pts, vec2(6, 5)), vec![vec2(5, 5), vec2(6, 5)]);
    assert_eq!(flood_fill(&pts, vec2(3, 3)), vec![vec2(3, 3)]);
    assert_eq!(flood_fill(&pts, vec2(9, 9)), Vec::<CellVector>::new());
}

#[test]
fn hex_neighbours_are_six() {
    // (1, -1) and (-1, 1) are not adjacent to the origin on the hex grid.
    let pts = vec![vec2(0, 0), vec2(1, -1)];
    assert_eq!(separate_regions(&pts), vec![vec![vec2(0, 0)], vec![vec2(1, -1)]]);
    let pts = vec![vec2(0, 0), vec2(-1, 1)];
    assert_eq!(separate_regions(&pts), vec![vec![vec2(-1, 1)], vec![vec2(0, 0)]]);
    for d in [(-1, -1), (0, -1), (1, 0), (1, 1), (0, 1), (-1, 0)] {
        let pts = vec![vec2(0, 0), vec2(d.0, d.1)];
        assert_eq!(separate_regions(&pts).len(), 1);
    }
}

#[test]
fn regions_do_not_depend_on_the_order_given() {
    let a = vec![vec2(9, 9), vec2(0, 1), vec2(4, 4), vec2(0, 0), vec2(5, 5), vec2(10, 10), vec2(5, 4)];
    let mut b = a.clone();
    b.reverse();
    b.push(vec2(4, 4));
    let expected = vec![
        vec![vec2(0, 0), vec2(0, 1)],
        vec![vec2(4, 4), vec2(5, 4), vec2(5, 5)],
        vec![vec2(9, 9), vec2(10, 10)],
    ];
    assert_eq!(separate_regions(&a), expected);
    assert_eq!(separate_regions(&b), expected);
    assert_eq!(separate_regions(&Vec::new()), Vec::<Vec<CellVector>>::new());
}

#[test]
fn tunnel_not_into_interior_but_onto_ground() {
    let mut g = Grid::new_base(&block(0, 0, 9, 9));
    g.insert(vec2(4, 4), MapCell::new_terrain(Terrain::Ground));
    // Open cells around do not make protected floor diggable.
    g.insert(vec2(5, 4), MapCell::new_terrain(Terrain::Wall).interior());
    g.insert(vec2(6, 4), MapCell::new_terrain(Terrain::Ground));
    g.insert(vec2(5, 3), MapCell::new_terrain(Terrain::Ground));
    assert!(!g.can_tunnel(vec2(4, 4), Dir6::Southeast));
    // Ground is walked through, whatever else holds.
    assert!(g.can_tunnel(vec2(5, 4), Dir6::Southeast));
    assert!(g.can_tunnel(vec2(5, 4), Dir6::Northwest));
    let mut h = Grid::new_base(&block(0, 0, 9, 9));
    h.insert(vec2(5, 4), MapCell::new_terrain(Terrain::Ground).interior());
    assert!(h.can_tunnel(vec2(4, 4), Dir6::Southeast));
}

#[test]
fn tunnel_rules() {
    let mut g = Grid::new_base(&block(0, 0, 9, 9));
    g.insert(vec2(4, 4), MapCell::new_terrain(Terrain::Ground));
    for i in 0..6 {
        assert!(g.can_tunnel(vec2(4, 4), Dir6::from_index(i)));
    }
    // Not off the grid.
    assert!(!g.can_tunnel(vec2(0, 0), Dir6::Northwest));
    assert!(!g.can_tunnel(vec2(0, 0), Dir6::North));
    assert!(!g.can_tunnel(vec2(i32::MAX, 0), Dir6::Southeast));
    // Not into what cannot be dug.
    g.insert(vec2(5, 4), MapCell::default().undiggable());
    assert!(!g.can_tunnel(vec2(4, 4), Dir6::Southeast));
    // Not past open ground at the side: going north from (4, 4), the cell
    // (3, 4) lies beside the step.
    g.insert(vec2(3, 4), MapCell::new_terrain(Terrain::Ground));
    assert!(!g.can_tunnel(vec2(4, 4), Dir6::North));
    assert!(g.can_tunnel(vec2(4, 4), Dir6::South));
    g.insert(vec2(6, 5), MapCell::new_terrain(Terrain::Ground));
    assert!(!g.can_tunnel(vec2(4, 4), Dir6::South));
}

#[test]
fn tunnel_through_wall_shells() {
    let mut g = Grid::new_base(&block(0, 0, 9, 9));
    g.insert(vec2(4, 4), MapCell::new_terrain(Terrain::Ground));
    g.insert(vec2(5, 4), MapCell::new_terrain(Terrain::Wall).border());
    g.insert(vec2(5, 5), MapCell::new_terrain(Terrain::Wall).border());
    // Along a wall axis a shell can be breached ...
    assert!(g.can_tunnel(vec2(4, 4), Dir6::Southeast));
    // ... across the axes it cannot ...
    assert!(!g.can_tunnel(vec2(4, 4), Dir6::South));
    // ... nor next to a door.
    g.insert(vec2(5, 3), MapCell::new_terrain(Terrain::Door).border());
    assert!(!g.can_tunnel(vec2(4, 4), Dir6::Southeast));
    // A shell is left along a wall axis only.
    let mut h = Grid::new_base(&block(0, 0, 9, 9));
    h.insert(vec2(4, 4), MapCell::new_terrain(Terrain::Door).border());
    assert!(!h.can_tunnel(vec2(4, 4), Dir6::South));
    assert!(!h.can_tunnel(vec2(4, 4), Dir6::North));
    assert!(h.can_tunnel(vec2(4, 4), Dir6::Southeast));
    assert!(h.can_tunnel(vec2(4, 4), Dir6::Southwest));
}

#[test]
fn dig_turns_shell_into_door_and_rock_into_ground() {
    let mut g = Grid::new_base(&block(0, 0, 3, 3));
    g.insert(vec2(1, 1), MapCell::new_terrain(Terrain::Wall).border());
    g.insert(vec2(2, 2), MapCell::new_terrain(Terrain::Wall).interior().undiggable());
    g.insert(vec2(3, 3), MapCell::new_terrain(Terrain::Water));
    g.dig(vec2(1, 1));
    let c = g.get(vec2(1, 1)).unwrap();
    assert_eq!(c.terrain, Terrain::Door);
    assert!(c.is_border());
    g.dig(vec2(0, 0));
    let c = g.get(vec2(0, 0)).unwrap();
    assert_eq!(c.terrain, Terrain::Ground);
    assert_eq!(c.vault_kind, None);
    assert!(c.can_dig);
    g.dig(vec2(2, 2));
    assert_eq!(g.get(vec2(2, 2)).unwrap().terrain, Terrain::Wall);
    g.dig(vec2(3, 3));
    assert_eq!(g.get(vec2(3, 3)).unwrap().terrain, Terrain::Ground);
    g.dig(vec2(0, 0));
    assert_eq!(g.get(vec2(0, 0)).unwrap().terrain, Terrain::Ground);
    g.dig(vec2(7, 7));
    assert!(!g.contains(vec2(7, 7)));
    assert_eq!(g.len(), 16);
}

#[test]
fn find_tunnel_one_step_and_none() {
    let g = dug_base(9, 9, &[(2, 2)]);
    let t = g.find_tunnel(vec2(2, 2), vec2(3, 2)).unwrap();
    assert_eq!(t.open_ground(), vec![vec2(2, 2), vec2(3, 2)]);
    // The grid that was searched is as it was.
    assert_eq!(g.open_ground(), vec![vec2(2, 2)]);
    // Walled in by what cannot be dug, nothing is found.
    let mut h = Grid::new_base(&block(0, 0, 4, 4));
    for p in block(0, 0, 4, 4) {
        h.insert(p, MapCell::default().undiggable());
    }
    h.insert(vec2(2, 2), MapCell::new_terrain(Terrain::Ground));
    h.insert(vec2(4, 4), MapCell::new_terrain(Terrain::Ground));
    assert!(h.find_tunnel(vec2(2, 2), vec2(4, 4)).is_none());
    // A goal off the grid is never reached.
    assert!(g.find_tunnel(vec2(2, 2), vec2(20, 20)).is_none());
}

#[test]
fn find_tunnel_digs_a_path() {
    let g = dug_base(11, 11, &[(1, 1), (9, 5)]);
    let t = g.find_tunnel(vec2(1, 1), vec2(9, 5)).unwrap();
    let floor = t.open_ground();
    assert!(floor.contains(&vec2(1, 1)));
    assert!(floor.contains(&vec2(9, 5)));
    assert_eq!(separate_regions(&floor).len(), 1);
    assert_eq!(t.len(), g.len());
    // Found again, it is the same tunnel.
    let again = g.find_tunnel(vec2(1, 1), vec2(9, 5)).unwrap();
    assert_eq!(again.open_ground(), floor);
}

#[test]
fn join_connects_all_parts() {
    for seed in 1..6 {
        let mut g = dug_base(13, 13, &[(1, 1), (2, 1), (10, 2), (10, 3), (3, 11), (12, 12)]);
        assert_eq!(g.open_regions().len(), 4);
        let joined = g.join_disjoint_regions(&mut rng(seed)).unwrap();
        assert_eq!(joined.open_regions().len(), 1);
        let floor = joined.open_ground();
        for p in g.open_ground() {
            assert!(floor.contains(&p));
        }
        assert_eq!(joined.len(), g.len());
        assert_eq!(g.open_regions().len(), 4);
        // The same seed gives the same level.
        let again = g.join_disjoint_regions(&mut rng(seed)).unwrap();
        assert_eq!(again.open_ground(), floor);
    }
}

#[test]
fn join_leaves_a_connected_level_alone() {
    let mut g = dug_base(5, 5, &[(1, 1), (2, 1), (2, 2)]);
    let joined = g.join_disjoint_regions(&mut rng(3)).unwrap();
    assert_eq!(joined.open_ground(), vec![vec2(1, 1), vec2(2, 1), vec2(2, 2)]);
    let mut none = Grid::new_base(&block(0, 0, 3, 3));
    assert!(none.join_disjoint_regions(&mut rng(3)).unwrap().open_ground().is_empty());
}

#[test]
fn join_fails_where_no_tunnel_can_be_dug() {
    let mut g = Grid::new();
    for p in block(0, 0, 6, 6) {
        g.insert(p, MapCell::default().undiggable());
    }
    g.insert(vec2(1, 1), MapCell::new_terrain(Terrain::Ground));
    g.insert(vec2(5, 5), MapCell::new_terrain(Terrain::Ground));
    assert!(g.join_disjoint_regions(&mut rng(11)).is_none());
}

#[test]
fn sealed_pockets_are_left_out() {
    let mut g = Grid::new_base(&block(0, 0, 9, 9));
    g.insert(vec2(1, 1), MapCell::new_terrain(Terrain::Ground));
    // A pocket of protected floor, walled in by a shell that cannot be dug.
    let pocket = vec2(6, 6);
    g.insert(pocket, MapCell::new_terrain(Terrain::Ground).interior());
    for i in 0..6 {
        let q = pocket.step(Dir6::from_index(i)).unwrap();
        g.insert(q, MapCell::new_terrain(Terrain::Wall).undiggable().border());
    }
    assert!(g.is_interior_bubble(&vec![pocket]));
    assert!(!g.is_interior_bubble(&vec![vec2(1, 1)]));
    assert!(!g.is_interior_bubble(&vec![pocket, vec2(1, 1)]));
    assert_eq!(g.open_regions(), vec![vec![vec2(1, 1)]]);
    let joined = g.join_disjoint_regions(&mut rng(5)).unwrap();
    assert_eq!(joined.open_ground(), vec![vec2(1, 1), pocket]);
    // With one wall diggable the pocket counts, and is joined.
    g.insert(vec2(5, 6), MapCell::new_terrain(Terrain::Wall).border());
    assert!(!g.is_interior_bubble(&vec![pocket]));
    assert_eq!(g.open_regions().len(), 2);
    let joined = g.join_disjoint_regions(&mut rng(5)).unwrap();
    assert_eq!(joined.open_regions().len(), 1);
    assert_eq!(joined.get(vec2(5, 6)).unwrap().terrain, Terrain::Door);
}
