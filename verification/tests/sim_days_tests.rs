use aoc22::day14::{add_bedrock, add_sand, sand_physics, SandMovement, Tile};
use aoc22::day14_visuals as visuals;
use aoc22::day17::{
    apply_wind, collides, fall, move_shape, spawn, stop_shape, Coord as TowerCoord, Tower, Wind,
};
use aoc22::day18::{
    count_neighboring_air, count_neighboring_lava, minmax, Axis, Coord as CubeCoord, Matter,
};
use std::collections::VecDeque;

fn empty_cave(width: usize, height: usize) -> Vec<Vec<Tile>> {
    let mut cave = Vec::new();
    for _ in 0..width {
        cave.push(vec![Tile::Air; height]);
    }
    cave
}

#[test]
fn sand_falls_straight_down_first() {
    let cave = empty_cave(3, 3);
    assert_eq!(sand_physics(&cave, (1, 0), (1, 0)), SandMovement::Move((1, 1)));
}

#[test]
fn sand_slides_left_then_right() {
    let mut cave = empty_cave(3, 3);
    add_bedrock(&mut cave);
    cave[1][1] = Tile::Rock;
    // straight down blocked, down-left free
    assert_eq!(sand_physics(&cave, (1, 0), (1, 0)), SandMovement::Move((0, 1)));
    cave[0][1] = Tile::Rock;
    assert_eq!(sand_physics(&cave, (1, 0), (1, 0)), SandMovement::Move((2, 1)));
    cave[2][1] = Tile::Rock;
    assert_eq!(sand_physics(&cave, (1, 0), (1, 0)), SandMovement::Rest);
}

#[test]
fn grain_rests_on_the_bedrock() {
    let mut cave = empty_cave(3, 3);
    add_bedrock(&mut cave);
    assert!(add_sand(&mut cave, (1, 0)));
    assert_eq!(cave[1][1], Tile::Sand);
}

#[test]
fn grain_falls_into_the_abyss_without_bedrock() {
    let mut cave = empty_cave(3, 3);
    assert!(!add_sand(&mut cave, (1, 0)));
    for x in 0..3 {
        for y in 0..3 {
            assert_eq!(cave[x][y], Tile::Air);
        }
    }
}

#[test]
fn blocked_source_accepts_no_grain() {
    let mut cave = empty_cave(3, 3);
    add_bedrock(&mut cave);
    cave[1][0] = Tile::Sand;
    assert!(!add_sand(&mut cave, (1, 0)));
}

#[test]
fn visual_cave_tracks_tiles() {
    let mut cave = visuals::Cave::new((3, 4));
    assert_eq!(cave.width(), 3);
    assert_eq!(cave.height(), 4);
    cave.set_tile((1, 2), visuals::Tile::Rock);
    assert_eq!(cave.tiles[1][2], visuals::Tile::Rock);
    assert_eq!(cave.tiles[0][0], visuals::Tile::Air);
}

#[test]
fn visual_add_sand_queues_at_a_free_source() {
    let cave = visuals::Cave::new((3, 4));
    let mut grains: VecDeque<(usize, usize)> = VecDeque::new();
    visuals::add_sand(&cave, (1, 0), &mut grains);
    assert_eq!(grains, VecDeque::from(vec![(1, 0)]));
    let mut blocked = visuals::Cave::new((3, 4));
    blocked.set_tile((1, 0), visuals::Tile::Sand);
    visuals::add_sand(&blocked, (1, 0), &mut grains);
    assert_eq!(grains.len(), 1);
}

#[test]
fn visual_process_sand_moves_the_front_grain() {
    let mut cave = visuals::Cave::new((3, 4));
    visuals::add_bedrock(&mut cave);
    let mut grains: VecDeque<(usize, usize)> = VecDeque::new();
    visuals::add_sand(&cave, (1, 0), &mut grains);
    let drawn = visuals::process_sand(&mut cave, &mut grains);
    assert_eq!(drawn, Some(((1, 1), visuals::Tile::FlowingSand)));
    let drawn = visuals::process_sand(&mut cave, &mut grains);
    assert_eq!(drawn, Some(((1, 2), visuals::Tile::FlowingSand)));
    let drawn = visuals::process_sand(&mut cave, &mut grains);
    assert_eq!(drawn, Some(((1, 2), visuals::Tile::Sand)));
    assert_eq!(cave.tiles[1][2], visuals::Tile::Sand);
}

#[test]
fn wind_offsets() {
    assert_eq!(Wind::Left.offset(), TowerCoord { x: -1, y: 0 });
    assert_eq!(Wind::Right.offset(), TowerCoord { x: 1, y: 0 });
}

fn flat_shape() -> Vec<TowerCoord> {
    vec![
        TowerCoord { x: 2, y: 3 },
        TowerCoord { x: 3, y: 3 },
        TowerCoord { x: 4, y: 3 },
        TowerCoord { x: 5, y: 3 },
    ]
}

#[test]
fn tower_records_inserted_rock() {
    let mut tower = Tower::with_height_capacity(8);
    assert_eq!(tower.height(), 0);
    tower.insert(&TowerCoord { x: 2, y: 0 });
    assert_eq!(tower.height(), 1);
    assert!(tower.is_rock(&TowerCoord { x: 2, y: 0 }));
    assert!(!tower.is_rock(&TowerCoord { x: 3, y: 0 }));
    tower.insert(&TowerCoord { x: 3, y: 0 });
    assert_eq!(tower.height(), 1);
    assert!(tower.is_rock(&TowerCoord { x: 3, y: 0 }));
}

#[test]
fn shapes_spawn_above_the_tower() {
    let s = spawn(&flat_shape(), 5);
    assert_eq!(s[0], TowerCoord { x: 2, y: 8 });
    assert_eq!(s[3], TowerCoord { x: 5, y: 8 });
}

#[test]
fn collisions_with_walls_floor_and_rock() {
    let mut tower = Tower::with_height_capacity(8);
    let shape = flat_shape();
    assert!(!collides(&shape, TowerCoord { x: 0, y: -1 }, &tower));
    assert!(collides(&shape, TowerCoord { x: 0, y: -4 }, &tower));
    assert!(collides(&shape, TowerCoord { x: 2, y: 0 }, &tower));
    assert!(!collides(&shape, TowerCoord { x: 1, y: 0 }, &tower));
    tower.insert(&TowerCoord { x: 2, y: 0 });
    assert!(collides(&shape, TowerCoord { x: 0, y: -3 }, &tower));
}

#[test]
fn shapes_move_and_fall() {
    let tower = Tower::with_height_capacity(8);
    let mut shape = flat_shape();
    move_shape(&mut shape, TowerCoord { x: 1, y: 0 });
    assert_eq!(shape[0], TowerCoord { x: 3, y: 3 });
    assert!(fall(&mut shape, &tower));
    assert_eq!(shape[0], TowerCoord { x: 3, y: 2 });
    assert!(fall(&mut shape, &tower));
    assert!(fall(&mut shape, &tower));
    assert_eq!(shape[0].y, 0);
    assert!(!fall(&mut shape, &tower));
    assert_eq!(shape[0].y, 0);
}

#[test]
fn wind_pushes_and_cycles() {
    let tower = Tower::with_height_capacity(8);
    let winds = vec![Wind::Right, Wind::Left];
    let mut shape = flat_shape();
    let mut wi: usize = 0;
    apply_wind(&mut shape, &tower, &mut wi, &winds);
    assert_eq!(wi, 1);
    assert_eq!(shape[3], TowerCoord { x: 6, y: 3 });
    // pushed against the right wall, the next push right would collide
    apply_wind(&mut shape, &tower, &mut wi, &winds);
    assert_eq!(wi, 0);
    assert_eq!(shape[3], TowerCoord { x: 5, y: 3 });
    apply_wind(&mut shape, &tower, &mut wi, &winds);
    assert_eq!(shape[3], TowerCoord { x: 6, y: 3 });
    apply_wind(&mut shape, &tower, &mut wi, &winds);
    assert_eq!(shape[3], TowerCoord { x: 5, y: 3 });
    assert!(collides(&shape, TowerCoord { x: 2, y: 0 }, &tower));
}

#[test]
fn stopped_shapes_become_rock() {
    let mut tower = Tower::with_height_capacity(8);
    let mut shape = flat_shape();
    while fall(&mut shape, &tower) {}
    stop_shape(&shape, &mut tower);
    assert_eq!(tower.height(), 1);
    for x in 2..6 {
        assert!(tower.is_rock(&TowerCoord { x, y: 0 }));
    }
    assert!(!tower.is_rock(&TowerCoord { x: 1, y: 0 }));
}

#[test]
fn adjacent_cubes_share_one_face() {
    let cubes = vec![
        (CubeCoord { x: 1, y: 1, z: 1 }, Matter::Lava),
        (CubeCoord { x: 2, y: 1, z: 1 }, Matter::Lava),
    ];
    assert_eq!(count_neighboring_lava(&cubes[0].0.clone(), &cubes), 1);
    assert_eq!(count_neighboring_lava(&CubeCoord { x: 3, y: 1, z: 1 }, &cubes), 1);
    assert_eq!(count_neighboring_lava(&CubeCoord { x: 5, y: 5, z: 5 }, &cubes), 0);
}

#[test]
fn air_neighbours_count_only_air() {
    let cubes = vec![
        (CubeCoord { x: 1, y: 1, z: 1 }, Matter::Lava),
        (CubeCoord { x: 2, y: 1, z: 1 }, Matter::ExteriorAir),
        (CubeCoord { x: 0, y: 1, z: 1 }, Matter::ExteriorAir),
    ];
    assert_eq!(count_neighboring_air(&CubeCoord { x: 1, y: 1, z: 1 }, &cubes), 2);
    assert_eq!(count_neighboring_lava(&CubeCoord { x: 1, y: 1, z: 1 }, &cubes), 2);
}

#[test]
fn minmax_scans_one_axis() {
    let cubes = vec![
        (CubeCoord { x: 1, y: 7, z: -3 }, Matter::Lava),
        (CubeCoord { x: 4, y: 2, z: 5 }, Matter::Lava),
        (CubeCoord { x: -2, y: 3, z: 0 }, Matter::Lava),
    ];
    assert_eq!(minmax(&cubes, Axis::X), (-2, 4));
    assert_eq!(minmax(&cubes, Axis::Y), (2, 7));
    assert_eq!(minmax(&cubes, Axis::Z), (-3, 5));
}
