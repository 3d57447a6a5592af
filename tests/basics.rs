use roguelike::combat::apply_damage;
use roguelike::common::Color;
use roguelike::components::{Direction, Sighted, ZLayer};
use roguelike::lookup::WorldPositionLookupTable;
use roguelike::random::{random_in_range, random_in_vec, random_in_vec_and_remove, random_index_vec, Rng};
use roguelike::raycast::Raycast;
use roguelike::store::{Entities, Entity, Storage};
use roguelike::world::{CanvasPosition, UIState, WorldParameters, WorldPosition};

fn pos(x: u64, y: u64) -> WorldPosition {
    WorldPosition { x, y }
}

#[test]
fn health_saturates_at_zero() {
    assert_eq!(apply_damage(3, 10), 0);
    assert_eq!(apply_damage(10, 3), 7);
    assert_eq!(apply_damage(5, 5), 0);
    assert_eq!(apply_damage(0, 1), 0);
}

#[test]
fn color_codes_are_upper_case_hex() {
    assert_eq!(Color::new(255, 0, 16).to_string(), "#FF0010");
    assert_eq!(Color::brown().to_string(), "#E28413");
    assert_eq!(Color::black().to_string(), "#000022");
}

#[test]
fn color_darkened_and_tinted() {
    assert_eq!(Color::new(200, 101, 0).darkened(), Color::new(100, 50, 0));
    assert_eq!(Color::new(200, 101, 0).tinted(), Color::new(227, 178, 127));
    assert_eq!(Color::new(255, 255, 255).tinted(), Color::new(255, 255, 255));
}

#[test]
fn named_colors() {
    assert_eq!(Color::mildew(), Color::new(51, 101, 138));
    assert_eq!(Color::yellow(), Color::new(246, 174, 45));
    assert_eq!(Color::deep_red(), Color::new(107, 39, 55));
    assert_eq!(Color::bright_red(), Color::new(220, 20, 20));
}

#[test]
fn moves_are_clamped_to_the_grid() {
    let p = pos(0, 0);
    assert_eq!(p.moved(Direction::Left, 5, 5), pos(0, 0));
    assert_eq!(p.moved(Direction::Up, 5, 5), pos(0, 0));
    assert_eq!(pos(4, 4).moved(Direction::Right, 5, 5), pos(4, 4));
    assert_eq!(pos(4, 4).moved(Direction::Down, 5, 5), pos(4, 4));
    assert_eq!(pos(2, 2).moved(Direction::Right, 5, 5), pos(3, 2));
    assert_eq!(pos(2, 2).moved(Direction::Up, 5, 5), pos(2, 1));
}

#[test]
fn repeated_moves_towards_a_border_stay_on_the_grid() {
    let mut p = pos(1, 1);
    for _ in 0..20 {
        p = p.moved(Direction::Right, 4, 3);
        assert!(p.x < 4 && p.y < 3);
    }
    assert_eq!(p, pos(3, 1));
    for _ in 0..20 {
        p = p.moved(Direction::Down, 4, 3);
        assert!(p.x < 4 && p.y < 3);
    }
    assert_eq!(p, pos(3, 2));
}

#[test]
fn max_position_is_the_last_cell() {
    let params = WorldParameters { width: 30, height: 20 };
    assert_eq!(params.max_position(), pos(29, 19));
}

#[test]
fn hovered_cell_is_found_by_cell_size() {
    let state = UIState { mouse_over: Some(CanvasPosition { x: 149, y: 50 }) };
    assert_eq!(state.mouse_over_position(), Some(pos(2, 1)));
    let none = UIState { mouse_over: None };
    assert_eq!(none.mouse_over_position(), None);
}

#[test]
fn lookup_table_stays_consistent() {
    let mut t = WorldPositionLookupTable::new(4, 4);
    let a = Entity { id: 0 };
    let b = Entity { id: 3 };
    t.update(a, pos(1, 1));
    t.update(b, pos(1, 1));
    assert_eq!(t.entities_at(pos(1, 1)).len(), 2);
    t.update(a, pos(2, 3));
    assert_eq!(t.entities_at(pos(1, 1)), &vec![b]);
    assert_eq!(t.entities_at(pos(2, 3)), &vec![a]);
    assert_eq!(t.position_of(a), Some(pos(2, 3)));
    t.update(a, pos(2, 3));
    assert_eq!(t.entities_at(pos(2, 3)), &vec![a]);
    t.remove(b);
    assert!(t.entities_at(pos(1, 1)).is_empty());
    assert_eq!(t.position_of(b), None);
    t.remove(b);
    assert_eq!(t.position_of(a), Some(pos(2, 3)));
    t.clear();
    assert_eq!(t.position_of(a), None);
    assert!(t.entities_at(pos(2, 3)).is_empty());
}

#[test]
fn storage_insert_get_remove() {
    let mut s: Storage<u32> = Storage::new();
    let e = Entity { id: 5 };
    assert_eq!(s.get(e), None);
    s.insert(e, 9);
    assert_eq!(s.get(e), Some(&9));
    assert!(s.contains(e));
    assert!(!s.contains(Entity { id: 4 }));
    assert_eq!(s.remove(e), Some(9));
    assert_eq!(s.remove(e), None);
}

#[test]
fn deletion_is_deferred_until_sweep() {
    let mut es = Entities::new();
    let a = es.create();
    let b = es.create();
    assert_eq!(a, Entity { id: 0 });
    assert_eq!(b, Entity { id: 1 });
    es.delete(a);
    assert!(es.is_alive(a));
    assert!(es.is_doomed(a));
    es.sweep(a);
    assert!(!es.is_alive(a));
    assert!(!es.is_doomed(a));
    assert_eq!(es.len(), 2);
}

#[test]
fn generator_is_deterministic() {
    let mut r = Rng::new(7);
    assert_eq!(r.next(), 2118330556);
    assert_eq!(r.state, 9098160460397411210);
    let mut r1 = Rng::new(7);
    assert_eq!(random_in_range(&mut r1, 3, 9), 9);
}

#[test]
fn random_picks_stay_in_range() {
    let mut r = Rng::new(1);
    for _ in 0..100 {
        let v = random_in_range(&mut r, 10, 12);
        assert!((10..=12).contains(&v));
    }
    assert_eq!(random_in_range(&mut r, 4, 4), 4);
    let big = random_in_range(&mut r, 0, u64::MAX);
    let _ = big;
}

#[test]
fn random_vector_helpers() {
    let mut r = Rng::new(3);
    let empty: Vec<u8> = vec![];
    let before = r;
    assert_eq!(random_index_vec(&mut r, &empty), None);
    assert_eq!(random_in_vec(&mut r, &empty), None);
    assert_eq!(r, before);
    let v = vec![10, 20, 30];
    let i = random_index_vec(&mut r, &v).unwrap();
    assert!(i < 3);
    let x = *random_in_vec(&mut r, &v).unwrap();
    assert!(v.contains(&x));
    let mut w = vec![1, 2, 3, 4];
    let taken = random_in_vec_and_remove(&mut r, &mut w).unwrap();
    assert_eq!(w.len(), 3);
    assert!(!w.contains(&taken));
    let mut none: Vec<u8> = vec![];
    assert_eq!(random_in_vec_and_remove(&mut r, &mut none), None);
}

#[test]
fn random_direction_follows_the_draw() {
    let mut r = Rng::new(42);
    assert_eq!(Direction::random(&mut r), Direction::Left);
    let mut r2 = Rng::new(7);
    // 2118330556 % 4 == 0
    assert_eq!(Direction::random(&mut r2), Direction::Right);
}

#[test]
fn layers_are_ranked() {
    assert_eq!(ZLayer::Ground.rank(), 0);
    assert_eq!(ZLayer::Creature.rank(), 1);
    assert_eq!(ZLayer::Item.rank(), 2);
    assert_eq!(ZLayer::Saturating.rank(), 3);
}

#[test]
fn sighted_starts_blind() {
    let s = Sighted::new();
    assert!(!s.sees(Entity { id: 0 }));
    assert!(!s.recalls(Entity { id: 0 }));
}

#[test]
fn ray_walks_cell_by_cell() {
    let mut ray = Raycast::new(pos(2, 2), pos(9, 9), 20, 0);
    assert_eq!(ray.next(), Some(pos(3, 2)));
    assert_eq!(ray.next(), Some(pos(4, 2)));
    let mut diag = Raycast::new(pos(2, 2), pos(9, 9), 20, 20);
    assert_eq!(diag.next(), Some(pos(2, 3)));
    assert_eq!(diag.next(), Some(pos(3, 3)));
    let mut up = Raycast::new(pos(1, 0), pos(9, 9), 0, -20);
    assert_eq!(up.next(), None);
    assert_eq!(up.next(), None);
    let mut steep = Raycast::new(pos(0, 0), pos(9, 9), 1, 3);
    assert_eq!(steep.next(), Some(pos(0, 1)));
    assert_eq!(steep.next(), Some(pos(0, 2)));
    assert_eq!(steep.next(), Some(pos(1, 2)));
}
