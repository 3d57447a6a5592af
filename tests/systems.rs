use roguelike::ai::{bearing, AI};
use roguelike::climbing::Climbing;
use roguelike::combat::Combat;
use roguelike::common::Color;
use roguelike::components::{
    AIControlled, Armed, Climbable, Collidable, Damageable, Describable, Direction, Faction, Factioned,
    Inventoried, Level, Movable, Opaque, Parent, Pickupable, PlayerControlled, Render, Sighted, ZLayer,
};
use roguelike::game::GameWorld;
use roguelike::looting::Looting;
use roguelike::movement::Movement;
use roguelike::perspective::Perspective;
use roguelike::player_command::PlayerCommandHandler;
use roguelike::rendering::{shade, shows_health_bar, Glyph, RenderTarget, Rendering};
use roguelike::store::Entity;
use roguelike::ui::{inventory_of, UI};
use roguelike::world::{CanvasPosition, UIEvent, WorldPosition};

fn pos(x: u64, y: u64) -> WorldPosition {
    WorldPosition { x, y }
}

fn placed(world: &mut GameWorld, p: WorldPosition) -> Entity {
    let e = world.create_entity();
    world.place(e, p);
    e
}

fn fighter(world: &mut GameWorld, p: WorldPosition, health: u32, damage: u32) -> Entity {
    let e = placed(world, p);
    world.collidable.insert(e, Collidable);
    world.damageable.insert(e, Damageable { health, max_health: health });
    world.armed.insert(e, Armed { damage, targetting: None });
    world.movable.insert(e, Movable { unprocessed_move: None });
    e
}

fn wall(world: &mut GameWorld, p: WorldPosition) -> Entity {
    let e = placed(world, p);
    world.collidable.insert(e, Collidable);
    world.opaque.insert(e, Opaque);
    e
}

#[test]
fn mover_steps_into_an_empty_cell() {
    let mut w = GameWorld::new(5, 5);
    let e = fighter(&mut w, pos(1, 1), 10, 1);
    w.movable.insert(e, Movable { unprocessed_move: Some(Direction::Right) });
    Movement.run(&mut w);
    assert_eq!(w.world_position.get(e), Some(&pos(2, 1)));
    assert_eq!(w.lookup.position_of(e), Some(pos(2, 1)));
    assert!(w.lookup.entities_at(pos(1, 1)).is_empty());
    assert_eq!(w.movable.get(e).unwrap().unprocessed_move, None);
}

#[test]
fn wall_blocks_a_move() {
    let mut w = GameWorld::new(5, 5);
    let e = fighter(&mut w, pos(1, 1), 10, 1);
    wall(&mut w, pos(1, 2));
    w.movable.insert(e, Movable { unprocessed_move: Some(Direction::Down) });
    Movement.run(&mut w);
    assert_eq!(w.world_position.get(e), Some(&pos(1, 1)));
    assert_eq!(w.armed.get(e).unwrap().targetting, None);
    assert_eq!(w.movable.get(e).unwrap().unprocessed_move, None);
}

#[test]
fn moving_into_a_creature_targets_it() {
    let mut w = GameWorld::new(5, 5);
    let a = fighter(&mut w, pos(1, 1), 10, 1);
    let b = fighter(&mut w, pos(0, 1), 10, 1);
    w.movable.insert(a, Movable { unprocessed_move: Some(Direction::Left) });
    Movement.run(&mut w);
    assert_eq!(w.world_position.get(a), Some(&pos(1, 1)));
    assert_eq!(w.armed.get(a).unwrap().targetting, Some(b));
}

#[test]
fn combat_resolves_each_target_once() {
    let mut w = GameWorld::new(5, 5);
    let a = fighter(&mut w, pos(1, 1), 10, 3);
    let b = fighter(&mut w, pos(2, 1), 10, 1);
    w.armed.insert(a, Armed { damage: 3, targetting: Some(b) });
    Combat.run(&mut w);
    assert_eq!(w.damageable.get(b).unwrap().health, 7);
    assert_eq!(w.armed.get(a).unwrap().targetting, None);
    Combat.run(&mut w);
    assert_eq!(w.damageable.get(b).unwrap().health, 7);
}

#[test]
fn self_targets_are_ignored() {
    let mut w = GameWorld::new(5, 5);
    let a = fighter(&mut w, pos(1, 1), 10, 3);
    w.armed.insert(a, Armed { damage: 3, targetting: Some(a) });
    Combat.run(&mut w);
    assert_eq!(w.damageable.get(a).unwrap().health, 10);
    assert_eq!(w.armed.get(a).unwrap().targetting, None);
}

#[test]
fn player_survives_five_hits_of_five() {
    let mut w = GameWorld::new(8, 8);
    let player = fighter(&mut w, pos(4, 4), 100, 5);
    let mut attackers = vec![];
    for (x, y) in [(3, 4), (5, 4), (4, 3), (4, 5), (3, 3)] {
        attackers.push(fighter(&mut w, pos(x, y), 10, 5));
    }
    for a in attackers {
        w.armed.insert(a, Armed { damage: 5, targetting: Some(player) });
        Combat.run(&mut w);
        w.maintain();
    }
    assert_eq!(w.damageable.get(player).unwrap().health, 75);
    assert!(w.entities.is_alive(player));
    assert_eq!(w.lookup.position_of(player), Some(pos(4, 4)));
}

#[test]
fn monster_killed_by_one_hit_is_removed() {
    let mut w = GameWorld::new(5, 5);
    let player = fighter(&mut w, pos(1, 1), 100, 10);
    let monster = fighter(&mut w, pos(2, 1), 10, 1);
    w.armed.insert(player, Armed { damage: 10, targetting: Some(monster) });
    Combat.run(&mut w);
    assert_eq!(w.lookup.position_of(monster), None);
    assert!(w.lookup.entities_at(pos(2, 1)).is_empty());
    assert!(w.entities.is_doomed(monster));
    assert!(w.damageable.get(monster).is_some());
    w.maintain();
    assert!(!w.entities.is_alive(monster));
    assert!(w.damageable.get(monster).is_none());
    assert!(w.world_position.get(monster).is_none());
}

#[test]
fn gold_is_picked_up() {
    let mut w = GameWorld::new(5, 5);
    let level = w.create_entity();
    let looter = fighter(&mut w, pos(2, 2), 10, 1);
    w.inventoried.insert(looter, Inventoried);
    let gold = placed(&mut w, pos(2, 2));
    w.pickupable.insert(gold, Pickupable);
    w.parent.insert(gold, Parent { entity: level });
    w.describable.insert(gold, Describable { description: "Gold".to_owned() });
    let far = placed(&mut w, pos(4, 4));
    w.pickupable.insert(far, Pickupable);
    Looting.run(&mut w);
    assert_eq!(w.lookup.position_of(gold), None);
    assert!(w.world_position.get(gold).is_none());
    assert_eq!(w.parent.get(gold), Some(&Parent { entity: looter }));
    assert_eq!(w.lookup.position_of(far), Some(pos(4, 4)));
    assert_eq!(w.lookup.entities_at(pos(2, 2)), &vec![looter]);
    assert_eq!(inventory_of(&w, looter), vec!["Gold".to_owned()]);
}

#[test]
fn enemies_head_for_the_player() {
    assert_eq!(bearing(pos(5, 5), pos(9, 6)), Direction::Right);
    assert_eq!(bearing(pos(5, 5), pos(1, 5)), Direction::Left);
    assert_eq!(bearing(pos(5, 5), pos(5, 1)), Direction::Up);
    assert_eq!(bearing(pos(5, 5), pos(6, 9)), Direction::Down);
    assert_eq!(bearing(pos(5, 5), pos(6, 6)), Direction::Down);
    assert_eq!(bearing(pos(5, 5), pos(6, 4)), Direction::Right);
    assert_eq!(bearing(pos(5, 5), pos(4, 4)), Direction::Up);
    assert_eq!(bearing(pos(5, 5), pos(4, 6)), Direction::Left);
    assert_eq!(bearing(pos(5, 5), pos(5, 5)), Direction::Right);
}

#[test]
fn ai_acts_once_per_tick() {
    let mut w = GameWorld::new(9, 9);
    let player = placed(&mut w, pos(1, 4));
    w.factioned.insert(player, Factioned { faction: Faction::Player });
    let monster = fighter(&mut w, pos(6, 4), 10, 1);
    w.factioned.insert(monster, Factioned { faction: Faction::Enemy });
    w.ai_controlled.insert(monster, AIControlled);
    let mut ai = AI { last_tick: 0 };
    ai.run(&mut w);
    assert_eq!(w.movable.get(monster).unwrap().unprocessed_move, None);
    w.time.tick = 1;
    ai.run(&mut w);
    assert_eq!(w.movable.get(monster).unwrap().unprocessed_move, Some(Direction::Left));
    assert_eq!(ai.last_tick, 1);
    w.movable.insert(monster, Movable { unprocessed_move: None });
    ai.run(&mut w);
    assert_eq!(w.movable.get(monster).unwrap().unprocessed_move, None);
}

#[test]
fn input_events_become_intents() {
    let mut w = GameWorld::new(5, 5);
    let player = fighter(&mut w, pos(2, 2), 100, 5);
    w.player_controlled.insert(player, PlayerControlled);
    w.last_user_event.events = vec![
        UIEvent::Up,
        UIEvent::MouseOver(CanvasPosition { x: 60, y: 10 }),
        UIEvent::Left,
        UIEvent::MousePress(CanvasPosition { x: 1, y: 1 }),
    ];
    PlayerCommandHandler.run(&mut w);
    assert_eq!(w.movable.get(player).unwrap().unprocessed_move, Some(Direction::Left));
    assert_eq!(w.time.tick, 1);
    assert_eq!(w.ui_state.mouse_over, Some(CanvasPosition { x: 60, y: 10 }));
    assert!(w.last_user_event.events.is_empty());
    w.last_user_event.events = vec![UIEvent::MouseLeave];
    PlayerCommandHandler.run(&mut w);
    assert_eq!(w.ui_state.mouse_over, None);
    assert_eq!(w.time.tick, 1);
}

#[test]
fn one_batch_is_one_tick() {
    let mut w = GameWorld::new(1, 1);
    let player = fighter(&mut w, pos(0, 0), 100, 5);
    w.player_controlled.insert(player, PlayerControlled);
    w.last_user_event.events = vec![UIEvent::Right, UIEvent::Left, UIEvent::Down];
    PlayerCommandHandler.run(&mut w);
    assert_eq!(w.time.tick, 1);
    assert_eq!(w.movable.get(player).unwrap().unprocessed_move, Some(Direction::Down));
    w.last_user_event.events = vec![UIEvent::MouseLeave];
    PlayerCommandHandler.run(&mut w);
    assert_eq!(w.time.tick, 1);
}

#[test]
fn wall_hides_what_is_behind_it() {
    let mut w = GameWorld::new(10, 5);
    let viewer = placed(&mut w, pos(1, 2));
    w.sighted.insert(viewer, Sighted::new());
    let blocker = wall(&mut w, pos(3, 2));
    let near = placed(&mut w, pos(2, 2));
    let behind = placed(&mut w, pos(4, 2));
    let farther = placed(&mut w, pos(7, 2));
    let open = placed(&mut w, pos(2, 0));
    Perspective.run(&mut w);
    let s = w.sighted.get(viewer).unwrap();
    assert!(s.sees(viewer));
    assert!(s.sees(near));
    assert!(s.sees(blocker));
    assert!(s.sees(open));
    assert!(!s.sees(behind));
    assert!(!s.sees(farther));
}

#[test]
fn sight_reaches_twenty_cells() {
    let mut w = GameWorld::new(30, 1);
    let viewer = placed(&mut w, pos(0, 0));
    w.sighted.insert(viewer, Sighted::new());
    let at_nineteen = placed(&mut w, pos(19, 0));
    let at_twenty = placed(&mut w, pos(20, 0));
    let at_twenty_one = placed(&mut w, pos(21, 0));
    Perspective.run(&mut w);
    let s = w.sighted.get(viewer).unwrap();
    assert!(s.sees(at_nineteen));
    assert!(s.sees(at_twenty));
    assert!(!s.sees(at_twenty_one));
    let remembered = s.seen.clone();
    Perspective.run(&mut w);
    let s = w.sighted.get(viewer).unwrap();
    assert_eq!(s.seen_recently.iter().filter(|b| **b).count(), remembered.iter().filter(|b| **b).count());
    assert!(s.recalls(at_twenty));
}

#[test]
fn climbing_the_stairs_tears_the_level_down() {
    let mut w = GameWorld::new(5, 5);
    let level = w.create_entity();
    let dungeon = Entity { id: 99 };
    w.parent.insert(level, Parent { entity: dungeon });
    w.level.insert(level, Level { generated: true });
    let stairs = placed(&mut w, pos(3, 3));
    w.climbable.insert(stairs, Climbable);
    w.parent.insert(stairs, Parent { entity: level });
    let player = fighter(&mut w, pos(3, 3), 100, 5);
    w.player_controlled.insert(player, PlayerControlled);
    w.sighted.insert(player, Sighted { seen: vec![true, true], seen_recently: vec![true] });
    Climbing.run(&mut w);
    assert!(w.entities.is_doomed(level));
    assert!(w.entities.is_doomed(stairs));
    assert_eq!(w.lookup.position_of(stairs), None);
    assert_eq!(w.lookup.position_of(player), None);
    assert!(w.world_position.get(player).is_none());
    assert!(!w.sighted.get(player).unwrap().sees(Entity { id: 0 }));
    let fresh = Entity { id: 3 };
    assert_eq!(w.level.get(fresh), Some(&Level { generated: false }));
    assert_eq!(w.parent.get(fresh), Some(&Parent { entity: dungeon }));
    assert!(!w.entities.is_doomed(player));
    w.maintain();
    assert!(w.entities.is_alive(player));
    assert!(!w.entities.is_alive(stairs));
}

#[test]
fn climbing_needs_the_stairs() {
    let mut w = GameWorld::new(5, 5);
    let level = w.create_entity();
    w.level.insert(level, Level { generated: true });
    let player = fighter(&mut w, pos(1, 1), 100, 5);
    w.player_controlled.insert(player, PlayerControlled);
    Climbing.run(&mut w);
    assert!(!w.entities.is_doomed(level));
    assert_eq!(w.entities.len(), 2);
}

#[test]
fn render_targets_layer_by_z() {
    let floor = Render {
        glyph: Some('.'),
        foreground_color: Color::mildew(),
        background_color: Some(Color::brown()),
        z_layer: ZLayer::Ground,
    };
    let hero = Render { glyph: Some('@'), foreground_color: Color::black(), background_color: None, z_layer: ZLayer::Creature };
    let hp = Damageable { health: 4, max_health: 10 };
    let base = Rendering::add_to_render_targets(None, &floor, pos(1, 1), None, false);
    let top = Rendering::add_to_render_targets(Some(base), &hero, pos(1, 1), Some(hp), false);
    assert_eq!(
        top,
        RenderTarget {
            position: pos(1, 1),
            glyph: Some(Glyph { symbol: '@', color: Color::black() }),
            background_color: Some(Color::brown()),
            damageable: Some(hp),
            semi_renderable: false,
        }
    );
    assert!(shows_health_bar(&hp));
    assert!(!shows_health_bar(&Damageable { health: 10, max_health: 10 }));
    assert_eq!(shade(Color::new(100, 100, 100), true, true), Color::new(177, 177, 177));
    assert_eq!(shade(Color::new(100, 100, 100), false, true), Color::new(50, 50, 50));
    assert_eq!(shade(Color::new(100, 100, 100), false, false), Color::new(100, 100, 100));
}

#[test]
fn map_is_drawn_from_the_players_sight() {
    let mut w = GameWorld::new(3, 1);
    let floor = placed(&mut w, pos(1, 0));
    w.render.insert(
        floor,
        Render { glyph: Some('.'), foreground_color: Color::mildew(), background_color: Some(Color::brown()), z_layer: ZLayer::Ground },
    );
    let player = fighter(&mut w, pos(1, 0), 100, 5);
    w.player_controlled.insert(player, PlayerControlled);
    w.sighted.insert(player, Sighted::new());
    w.render.insert(
        player,
        Render { glyph: Some('@'), foreground_color: Color::black(), background_color: None, z_layer: ZLayer::Creature },
    );
    assert!(Rendering.run(&GameWorld::new(2, 2)).is_none());
    Perspective.run(&mut w);
    let grid = Rendering.run(&w).unwrap();
    assert_eq!(grid.len(), 3);
    assert_eq!(grid[0], None);
    let t = grid[1].unwrap();
    assert_eq!(t.glyph, Some(Glyph { symbol: '@', color: Color::black() }));
    assert_eq!(t.background_color, Some(Color::brown()));
    assert_eq!(t.damageable, Some(Damageable { health: 100, max_health: 100 }));
}

#[test]
fn panel_shows_health_inventory_and_hovered_cell() {
    let mut w = GameWorld::new(3, 3);
    let player = fighter(&mut w, pos(1, 1), 80, 5);
    w.player_controlled.insert(player, PlayerControlled);
    w.sighted.insert(player, Sighted::new());
    w.describable.insert(player, Describable { description: "Player".to_owned() });
    let coin = w.create_entity();
    w.parent.insert(coin, Parent { entity: player });
    w.describable.insert(coin, Describable { description: "Gold".to_owned() });
    Perspective.run(&mut w);
    w.ui_state.mouse_over = Some(CanvasPosition { x: 75, y: 60 });
    let mut ui = UI { last_mouse_over_position: None };
    let snap = ui.run(&w);
    assert_eq!(snap.player_health, Some(80));
    assert_eq!(snap.inventory, vec!["Gold".to_owned()]);
    assert_eq!(snap.inspected, Some(vec!["Player".to_owned()]));
    assert_eq!(ui.last_mouse_over_position, Some(pos(1, 1)));
    let again = ui.run(&w);
    assert_eq!(again.inspected, None);
    w.ui_state.mouse_over = Some(CanvasPosition { x: 900, y: 10 });
    let off = ui.run(&w);
    assert_eq!(off.inspected, Some(vec![]));
    assert_eq!(ui.last_mouse_over_position, Some(pos(18, 0)));
}

#[test]
fn inventory_covers_the_whole_ownership_subtree() {
    let mut w = GameWorld::new(3, 3);
    let player = fighter(&mut w, pos(1, 1), 80, 5);
    w.player_controlled.insert(player, PlayerControlled);
    let bag = w.create_entity();
    w.parent.insert(bag, Parent { entity: player });
    w.describable.insert(bag, Describable { description: "Bag".to_owned() });
    let coin = w.create_entity();
    w.parent.insert(coin, Parent { entity: bag });
    w.describable.insert(coin, Describable { description: "Gold".to_owned() });
    let other = w.create_entity();
    w.describable.insert(other, Describable { description: "Rock".to_owned() });
    assert_eq!(inventory_of(&w, player), vec!["Bag".to_owned(), "Gold".to_owned()]);
    let mut ui = UI { last_mouse_over_position: None };
    assert_eq!(ui.run(&w).inventory, vec!["Bag".to_owned(), "Gold".to_owned()]);
}
