use roguelike::ai::AI;
use roguelike::components::Level;
use roguelike::game::GameWorld;
use roguelike::level_generation::{carve, find_player, new_level, LevelGeneration};
use roguelike::random::Rng;
use roguelike::store::Entity;
use roguelike::tick::tick;
use roguelike::world::{UIEvent, WorldPosition};

fn pos(x: u64, y: u64) -> WorldPosition {
    WorldPosition { x, y }
}

#[test]
fn single_digger_carves_a_known_path() {
    let mut rng = Rng::new(42);
    let grid = carve(&mut rng, 10, 10, &vec![pos(5, 5)], 8);
    let expected = [(1, 5), (2, 5), (2, 6), (3, 5), (3, 6), (4, 5), (5, 5)];
    assert_eq!(grid.len(), 100);
    for y in 0..10u64 {
        for x in 0..10u64 {
            let carved = grid[(y * 10 + x) as usize];
            assert_eq!(carved, expected.contains(&(x, y)), "cell ({}, {})", x, y);
        }
    }
    assert_eq!(rng.state, 2812299150962093586);
}

#[test]
fn diggers_without_steps_carve_their_starts() {
    let mut rng = Rng::new(5);
    let grid = carve(&mut rng, 3, 2, &vec![pos(0, 0), pos(2, 1)], 0);
    assert_eq!(grid, vec![true, false, false, false, false, true]);
    assert_eq!(rng, Rng::new(5));
}

#[test]
fn level_is_generated_once() {
    let mut w = GameWorld::new(12, 10);
    let level = new_level(&mut w);
    let mut rng = Rng::new(2024);
    LevelGeneration.run(&mut w, &mut rng);
    assert_eq!(w.level.get(level), Some(&Level { generated: true }));
    let count = w.entities.len();
    assert!(count >= 1 + 120);
    assert!(count <= 1 + 120 + 16);
    let player = find_player(&w).unwrap();
    assert!(w.lookup.position_of(player).is_some());
    assert_eq!(w.damageable.get(player).unwrap().health, 100);
    assert_eq!(w.armed.get(player).unwrap().damage, 5);
    assert!(w.parent.get(player).is_none());
    let mut gold = 0;
    let mut monsters = 0;
    for i in 0..count {
        let e = Entity { id: i };
        if w.pickupable.contains(e) {
            gold += 1;
            assert_eq!(w.parent.get(e).unwrap().entity, level);
        }
        if w.ai_controlled.contains(e) {
            monsters += 1;
            assert_eq!(w.damageable.get(e).unwrap().max_health, 10);
        }
    }
    assert!(gold <= 10);
    assert!(monsters <= 5);
    assert_eq!(count, 1 + 120 + 1 + gold + monsters);
    let rng_after = rng;
    LevelGeneration.run(&mut w, &mut rng);
    LevelGeneration.run(&mut w, &mut rng);
    assert_eq!(w.entities.len(), count);
    assert_eq!(rng, rng_after);
}

#[test]
fn every_cell_gets_one_tile() {
    let mut w = GameWorld::new(6, 4);
    let level = new_level(&mut w);
    let mut rng = Rng::new(9);
    LevelGeneration.run(&mut w, &mut rng);
    let mut walls = 0;
    let mut stairs = 0;
    let mut stairs_cell = None;
    for j in 0..24usize {
        let e = Entity { id: level.id + 1 + j };
        let p = w.world_position.get(e).copied().unwrap();
        assert_eq!(p, pos((j / 4) as u64, (j % 4) as u64));
        if w.collidable.contains(e) {
            walls += 1;
            assert!(w.opaque.contains(e));
        }
        if w.climbable.contains(e) {
            stairs += 1;
            stairs_cell = Some(p);
        }
    }
    assert_eq!(stairs, 1);
    assert!(walls < 24);
    let player = find_player(&w).unwrap();
    assert_ne!(w.world_position.get(player).copied(), stairs_cell);
}

#[test]
fn ticks_run_the_whole_pipeline() {
    let mut w = GameWorld::new(15, 15);
    new_level(&mut w);
    let mut rng = Rng::new(77);
    let mut ai = AI { last_tick: 0 };
    tick(&mut w, &mut rng, &mut ai);
    let player = find_player(&w).unwrap();
    assert!(w.sighted.get(player).unwrap().sees(player));
    for _ in 0..5 {
        w.last_user_event.events = vec![UIEvent::Right];
        tick(&mut w, &mut rng, &mut ai);
        assert!(w.last_user_event.events.is_empty());
    }
    assert_eq!(w.time.tick, 5);
    assert_eq!(ai.last_tick, 5);
    let p = w.world_position.get(player).copied();
    if let Some(p) = p {
        assert!(p.x < 15 && p.y < 15);
        assert_eq!(w.lookup.position_of(player), Some(p));
    }
}

#[test]
fn generation_is_fixed_by_the_seed() {
    let mut a = GameWorld::new(9, 7);
    new_level(&mut a);
    let mut b = GameWorld::new(9, 7);
    new_level(&mut b);
    let mut ra = Rng::new(31337);
    let mut rb = Rng::new(31337);
    LevelGeneration.run(&mut a, &mut ra);
    LevelGeneration.run(&mut b, &mut rb);
    assert_eq!(ra, rb);
    assert_eq!(a.entities.len(), b.entities.len());
    for i in 0..a.entities.len() {
        let e = Entity { id: i };
        assert_eq!(a.world_position.get(e), b.world_position.get(e));
        assert_eq!(a.climbable.contains(e), b.climbable.contains(e));
        assert_eq!(a.pickupable.contains(e), b.pickupable.contains(e));
        assert_eq!(a.ai_controlled.contains(e), b.ai_controlled.contains(e));
    }
}

#[test]
fn placed_entities_stand_on_distinct_floor_cells() {
    let mut w = GameWorld::new(10, 10);
    let level = new_level(&mut w);
    let mut rng = Rng::new(5);
    LevelGeneration.run(&mut w, &mut rng);
    let tiles_end = level.id + 1 + 100;
    let mut stairs = None;
    for i in level.id + 1..tiles_end {
        let e = Entity { id: i };
        if w.climbable.contains(e) {
            stairs = w.world_position.get(e).copied();
        }
    }
    let mut seen = vec![];
    for i in tiles_end..w.entities.len() {
        let p = w.world_position.get(Entity { id: i }).copied().unwrap();
        assert_ne!(Some(p), stairs);
        assert!(!seen.contains(&p));
        seen.push(p);
        let tile = Entity { id: level.id + 1 + (p.x * 10 + p.y) as usize };
        assert!(!w.collidable.contains(tile));
    }
}

#[test]
fn an_existing_player_is_reused() {
    let mut w = GameWorld::new(8, 8);
    let first = new_level(&mut w);
    let mut rng = Rng::new(12);
    LevelGeneration.run(&mut w, &mut rng);
    let player = find_player(&w).unwrap();
    w.level.insert(first, Level { generated: true });
    let second = new_level(&mut w);
    w.entities.delete(first);
    w.maintain();
    let before = w.entities.len();
    LevelGeneration.run(&mut w, &mut rng);
    assert_eq!(find_player(&w), Some(player));
    assert_eq!(w.level.get(second), Some(&Level { generated: true }));
    assert!(w.entities.len() <= before + 64 + 15);
    let p = w.world_position.get(player).copied().unwrap();
    assert_eq!(w.lookup.position_of(player), Some(p));
}
