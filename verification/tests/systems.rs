use std::collections::VecDeque;

use rogue_core::components::{
    find_action, Actor, Captured, Entity, Goal, GoalHandler, HealthPotion, Invulnerable, Item,
    KillTarget, Physics, PlayerController, Relationship, Relationships, Transform, Weapon, B,
};
use rogue_core::events::{
    event_attack, event_move_direction, event_move_to, event_take_damage, event_throw_item,
    find_entities_in_distance, find_first_enemy, get_ai_action, run_event_system_hecs,
    step_from_path, Action, AttackAction, DamageAction, Events, Notice, ThrowAction,
};
use rogue_core::map::{MapChunk, WorldMap};
use rogue_core::math::Vector2Int;
use rogue_core::queries::{
    get_entity_at_grid_position, get_entity_grid_position, get_player_entity,
};
use rogue_core::systems::{
    cleanup_dead_entities, create_bad_relationship, fire_next_action, generate_energy,
    get_uncommon_items_with_damage_above, recusiverly_fire_action, run_actor_actions, turn_order,
};
use rogue_core::tiles::{Tile, TileMap};
use rogue_core::world::{Components, World};
use rogue_core::world_setup::setup_world;

fn open_map() -> WorldMap {
    let mut tiles = TileMap::new();
    for x in 0..40 {
        for y in 0..40 {
            tiles.insert(Vector2Int::new(x, y), Tile { walkable: true, ..Default::default() });
        }
    }
    WorldMap::from_chunk(MapChunk { position: Vector2Int::default(), tiles })
}

fn map_with_wall_at(x: i32, y: i32) -> WorldMap {
    let mut tiles = TileMap::new();
    for tx in 0..40 {
        for ty in 0..40 {
            tiles.insert(
                Vector2Int::new(tx, ty),
                Tile { walkable: tx != x || ty != y, ..Default::default() },
            );
        }
    }
    WorldMap::from_chunk(MapChunk { position: Vector2Int::default(), tiles })
}

fn actor_at(x: i32, y: i32, health: u16, speed: u32) -> Components {
    Components {
        transform: Some(Transform::new(Vector2Int::new(x, y))),
        physics: Some(Physics::new(health, speed)),
        actor: Some(Actor::new()),
        ..Default::default()
    }
}

fn position_of(world: &World, entity: Entity) -> Vector2Int {
    get_entity_grid_position(world, entity)
}

fn physics_of(world: &World, entity: Entity) -> Physics {
    world.physics(world.find(entity).unwrap()).unwrap()
}

#[test]
fn test_cleanup() {
    let mut world = World::new();

    let a = world.spawn(Components { physics: Some(Physics::new(0, 0)), ..Default::default() });
    let b = world.spawn(Components { physics: Some(Physics::new(0, 0)), ..Default::default() });
    let c = world.spawn(Components { physics: Some(Physics::new(0, 0)), ..Default::default() });
    cleanup_dead_entities(&mut world);

    assert_eq!(world.contains(a), false);
    assert_eq!(world.contains(b), false);
    assert_eq!(world.contains(c), false);
}

#[test]
fn test_run_actor_actions() {
    let (mut world, player) = setup_world();
    let map = open_map();
    let mut notices = Vec::new();
    let mut player_pos = position_of(&world, player);
    world.queue_action(
        player,
        Action { cost: 1, event: Events::MoveTo(player_pos.plus(Vector2Int::new(1, 0))) },
    );

    run_actor_actions(&mut world, &map, &mut notices);
    player_pos = player_pos.plus(Vector2Int::new(1, 0));
    let new_player_pos = position_of(&world, player);
    assert_eq!(player_pos, new_player_pos);
}

#[test]
fn player_moves_to_open_ground() {
    let (mut world, player) = setup_world();
    let map = open_map();
    let mut notices = Vec::new();
    assert_eq!(position_of(&world, player), Vector2Int::new(5, 5));
    assert!(world.queue_action(player, Action { cost: 1, event: Events::MoveTo(Vector2Int::new(6, 5)) }));
    run_actor_actions(&mut world, &map, &mut notices);
    assert_eq!(position_of(&world, player), Vector2Int::new(6, 5));
    let transform = world.transform(world.find(player).unwrap()).unwrap();
    assert_eq!(transform.screen_positon.x, 96);
    assert_eq!(transform.screen_positon.y, 80);
    assert!(notices.is_empty());
}

#[test]
fn player_stays_before_a_blocked_tile_and_the_log_hears_of_it_once() {
    let (mut world, player) = setup_world();
    let map = map_with_wall_at(6, 5);
    let mut notices = Vec::new();
    world.queue_action(player, Action { cost: 1, event: Events::MoveTo(Vector2Int::new(6, 5)) });
    run_actor_actions(&mut world, &map, &mut notices);
    assert_eq!(position_of(&world, player), Vector2Int::new(5, 5));
    assert_eq!(notices, vec![Notice::PathBlocked]);
    assert_eq!(notices[0].message(), "That path is blocked");
}

#[test]
fn entity_with_energy_for_one_action_acts_once() {
    let mut world = World::new();
    let map = open_map();
    let mut notices = Vec::new();
    let walker = world.spawn(actor_at(3, 3, 10, 1));
    assert_eq!(physics_of(&world, walker).energy, 0);
    world.queue_action(
        walker,
        Action { cost: 1, event: Events::MoveDirection(Vector2Int::new(1, 0)) },
    );
    run_actor_actions(&mut world, &map, &mut notices);
    assert_eq!(position_of(&world, walker), Vector2Int::new(4, 3));
    assert_eq!(physics_of(&world, walker).energy, 0);
    assert_eq!(world.queued_action(world.find(walker).unwrap()), None);
}

#[test]
fn action_that_costs_too_much_is_dropped() {
    let mut world = World::new();
    let map = open_map();
    let mut notices = Vec::new();
    let walker = world.spawn(actor_at(3, 3, 10, 1));
    world.queue_action(
        walker,
        Action { cost: 2, event: Events::MoveDirection(Vector2Int::new(1, 0)) },
    );
    run_actor_actions(&mut world, &map, &mut notices);
    assert_eq!(position_of(&world, walker), Vector2Int::new(3, 3));
    assert_eq!(physics_of(&world, walker).energy, 1);
    assert_eq!(world.queued_action(world.find(walker).unwrap()), None);
}

#[test]
fn the_faster_entity_acts_first() {
    let mut world = World::new();
    let map = open_map();
    let mut notices = Vec::new();
    let potion = Item::HealthPotion(HealthPotion::default());
    let slow = world.spawn(actor_at(1, 1, 10, 1));
    let fast = world.spawn(actor_at(30, 30, 10, 2));
    world.queue_action(
        slow,
        Action { cost: 1, event: Events::ThrowItem(ThrowAction { item: potion, target: Entity(77) }) },
    );
    world.queue_action(
        fast,
        Action { cost: 1, event: Events::ThrowItem(ThrowAction { item: potion, target: Entity(88) }) },
    );
    assert_eq!(turn_order(&world), VecDeque::from(vec![fast, slow]));
    run_actor_actions(&mut world, &map, &mut notices);
    assert_eq!(
        notices,
        vec![
            Notice::ItemThrown { item: potion, target: Entity(88) },
            Notice::ItemThrown { item: potion, target: Entity(77) },
        ]
    );
    assert_eq!(physics_of(&world, fast).energy, 0);
    assert_eq!(physics_of(&world, slow).energy, 0);
}

#[test]
fn turn_order_keeps_spawn_order_among_equals_and_skips_the_rest() {
    let mut world = World::new();
    let a = world.spawn(actor_at(0, 0, 1, 3));
    world.spawn(Components { physics: Some(Physics::new(5, 9)), ..Default::default() });
    let b = world.spawn(actor_at(0, 1, 1, 5));
    let c = world.spawn(actor_at(0, 2, 1, 3));
    let d = world.spawn(actor_at(0, 3, 1, 5));
    world.spawn(Components { actor: Some(Actor::new()), ..Default::default() });
    assert_eq!(turn_order(&world), VecDeque::from(vec![b, d, a, c]));
}

#[test]
fn energy_grows_by_speed_for_entities_that_take_turns() {
    let mut world = World::new();
    let a = world.spawn(actor_at(0, 0, 1, 3));
    let b = world.spawn(Components { physics: Some(Physics::new(5, 9)), ..Default::default() });
    generate_energy(&mut world);
    generate_energy(&mut world);
    assert_eq!(physics_of(&world, a).energy, 6);
    assert_eq!(physics_of(&world, b).energy, 0);
}

#[test]
fn entity_with_energy_left_goes_to_the_back_of_the_line() {
    let mut world = World::new();
    let map = open_map();
    let mut notices = Vec::new();
    let a = world.spawn(actor_at(2, 2, 10, 2));
    let b = world.spawn(actor_at(20, 20, 10, 1));
    generate_energy(&mut world);
    world.queue_action(a, Action { cost: 1, event: Events::MoveDirection(Vector2Int::new(0, 1)) });
    let mut line = VecDeque::from(vec![a, b]);
    fire_next_action(&mut world, &map, &mut notices, &mut line);
    assert_eq!(line, VecDeque::from(vec![b, a]));
    assert_eq!(position_of(&world, a), Vector2Int::new(2, 3));
    assert_eq!(physics_of(&world, a).energy, 1);
    recusiverly_fire_action(&mut world, &map, &mut notices, &mut line);
    assert!(line.is_empty());
    assert_eq!(physics_of(&world, a).energy, 0);
    assert_eq!(physics_of(&world, b).energy, 0);
}

#[test]
fn action_without_cost_is_taken_once() {
    let mut world = World::new();
    let map = open_map();
    let mut notices = Vec::new();
    let a = world.spawn(actor_at(2, 2, 10, 1));
    world.queue_action(a, Action { cost: 0, event: Events::MoveDirection(Vector2Int::new(0, 1)) });
    run_actor_actions(&mut world, &map, &mut notices);
    assert_eq!(physics_of(&world, a).energy, 0);
    assert!(position_of(&world, a).distance(Vector2Int::new(2, 3)) <= 2);
}

#[test]
fn damage_turns_the_victim_against_the_attacker() {
    let mut world = World::new();
    let victim = world.spawn(actor_at(0, 0, 10, 1));
    let attacker = world.spawn(actor_at(1, 0, 10, 1));
    let map = open_map();
    let mut notices = Vec::new();
    assert_eq!(world.relationship(victim, attacker), None);
    let mut event = Events::TakeDamage(DamageAction { attacker: Some(attacker), amount: 3 });
    run_event_system_hecs(&mut world, &map, &mut notices, victim, &mut event);
    assert_eq!(world.relationship(victim, attacker), Some(Relationship(-500)));
    assert!(world.relationship(victim, attacker).unwrap().0 <= -500);
    assert_eq!(world.relationship(attacker, victim), None);
    assert_eq!(physics_of(&world, victim).health, 7);
    assert_eq!(physics_of(&world, attacker).health, 10);
}

#[test]
fn hostility_only_deepens() {
    let mut world = World::new();
    let victim = world.spawn(actor_at(0, 0, 10, 1));
    let attacker = world.spawn(actor_at(1, 0, 10, 1));
    let map = open_map();
    let mut notices = Vec::new();
    let mut blow = Events::TakeDamage(DamageAction { attacker: Some(attacker), amount: 1 });
    run_event_system_hecs(&mut world, &map, &mut notices, victim, &mut blow);
    let after_blow = world.relationship(victim, attacker).unwrap();
    let mut events = vec![
        Events::Empty,
        Events::MoveTo(Vector2Int::new(3, 3)),
        Events::MoveDirection(Vector2Int::new(1, 1)),
        Events::TakeDamage(DamageAction { attacker: None, amount: 1 }),
        Events::ThrowItem(ThrowAction {
            item: Item::HealthPotion(HealthPotion::default()),
            target: attacker,
        }),
        Events::Attack(AttackAction { amount: 1, target: victim }),
    ];
    for event in events.iter_mut() {
        run_event_system_hecs(&mut world, &map, &mut notices, attacker, event);
        assert!(world.relationship(victim, attacker).unwrap().0 <= after_blow.0);
    }
    assert_eq!(world.relationship(victim, attacker), Some(Relationship(-500)));
}

#[test]
fn a_score_below_the_hostile_score_stays() {
    let mut ledger = Relationships::new();
    ledger.set(Entity(4), Relationship(-700));
    ledger.set(Entity(5), Relationship(20));
    ledger.make_hostile(Entity(4));
    ledger.make_hostile(Entity(5));
    ledger.make_hostile(Entity(6));
    assert_eq!(ledger.get(Entity(4)), Some(Relationship(-700)));
    assert_eq!(ledger.get(Entity(5)), Some(Relationship(-500)));
    assert_eq!(ledger.get(Entity(6)), Some(Relationship(-500)));
    assert_eq!(ledger.get(Entity(7)), None);
}

#[test]
fn unknown_entities_are_no_enemies() {
    let mut ledger = Relationships::new();
    assert!(!ledger.is_enemy(Entity(1)));
    ledger.set(Entity(1), Relationship(-1));
    ledger.set(Entity(2), Relationship(0));
    assert!(ledger.is_enemy(Entity(1)));
    assert!(!ledger.is_enemy(Entity(2)));
    assert!(Relationship(0).is_friendly());
    assert!(!Relationship(0).is_enemy());
    assert!(Relationship(-1).is_enemy());
    assert!(!Relationship(-1).is_friendly());
    assert!(Relationship(12).is_friendly());
}

#[test]
fn create_bad_relationship_writes_into_the_ledger_of_the_target() {
    let mut world = World::new();
    let aggressor = world.spawn(actor_at(0, 0, 10, 1));
    let target = world.spawn(actor_at(1, 0, 10, 1));
    let bystander = world.spawn(Components::default());
    create_bad_relationship(&mut world, aggressor, target);
    assert_eq!(world.relationship(target, aggressor), Some(Relationship(-500)));
    assert_eq!(world.relationship(aggressor, target), None);
    create_bad_relationship(&mut world, aggressor, bystander);
    create_bad_relationship(&mut world, aggressor, Entity(99));
    assert_eq!(world.relationship(bystander, aggressor), None);
    assert_eq!(world.len(), 3);
}

#[test]
fn an_invulnerable_entity_takes_no_damage() {
    let mut world = World::new();
    let mut components = actor_at(0, 0, 10, 1);
    components.invulnerable = Some(Invulnerable);
    let victim = world.spawn(components);
    let mut blow = DamageAction { attacker: Some(Entity(50)), amount: 4 };
    event_take_damage(&mut world, victim, &mut blow);
    assert_eq!(physics_of(&world, victim).health, 10);
    assert_eq!(blow, DamageAction { attacker: Some(Entity(50)), amount: 0 });
    assert_eq!(world.relationship(victim, Entity(50)), Some(Relationship(-500)));
}

#[test]
fn health_stops_at_zero() {
    let mut world = World::new();
    let victim = world.spawn(actor_at(0, 0, 3, 1));
    let mut blow = DamageAction { attacker: None, amount: 10 };
    event_take_damage(&mut world, victim, &mut blow);
    assert_eq!(physics_of(&world, victim).health, 0);
    assert_eq!(physics_of(&world, victim).max_health, 3);
    assert_eq!(blow.amount, 10);
    assert_eq!(world.relationship(victim, Entity(50)), None);
    let mut physics = Physics::new(5, 1);
    physics.take_damage(&DamageAction { attacker: None, amount: 2 });
    assert_eq!(physics.health, 3);
    assert!(physics.is_alive());
    physics.take_damage(&DamageAction { attacker: None, amount: 3 });
    assert!(!physics.is_alive());
}

#[test]
fn attack_deals_damage_in_the_name_of_the_attacker() {
    let mut world = World::new();
    let attacker = world.spawn(actor_at(0, 0, 10, 1));
    let target = world.spawn(actor_at(1, 0, 10, 1));
    event_attack(&mut world, attacker, &AttackAction { amount: 4, target });
    assert_eq!(physics_of(&world, target).health, 6);
    assert_eq!(physics_of(&world, attacker).health, 10);
    assert_eq!(world.relationship(target, attacker), Some(Relationship(-500)));
}

#[test]
fn move_direction_does_not_ask_whether_the_tile_can_be_walked_on() {
    let mut world = World::new();
    let map = map_with_wall_at(4, 3);
    let mut notices = Vec::new();
    let mut components = actor_at(3, 3, 10, 1);
    components.player = Some(PlayerController);
    let walker = world.spawn(components);
    event_move_direction(&mut world, walker, &Vector2Int::new(1, 0));
    assert_eq!(position_of(&world, walker), Vector2Int::new(4, 3));
    event_move_to(&mut world, &map, &mut notices, walker, Vector2Int::new(3, 3));
    assert_eq!(position_of(&world, walker), Vector2Int::new(3, 3));
    event_move_to(&mut world, &map, &mut notices, walker, Vector2Int::new(4, 3));
    assert_eq!(position_of(&world, walker), Vector2Int::new(3, 3));
    assert_eq!(notices, vec![Notice::PathBlocked]);
    event_move_to(&mut world, &map, &mut notices, walker, Vector2Int::new(400, 3));
    assert_eq!(position_of(&world, walker), Vector2Int::new(3, 3));
    assert_eq!(notices.len(), 2);
}

#[test]
fn a_blocked_creature_tells_the_log_nothing() {
    let mut world = World::new();
    let map = map_with_wall_at(4, 3);
    let mut notices = Vec::new();
    let walker = world.spawn(actor_at(3, 3, 10, 1));
    event_move_to(&mut world, &map, &mut notices, walker, Vector2Int::new(4, 3));
    assert_eq!(position_of(&world, walker), Vector2Int::new(3, 3));
    assert!(notices.is_empty());
}

#[test]
fn a_step_over_the_edge_of_the_grid_wraps() {
    let mut transform = Transform::new(Vector2Int::new(i32::MAX, 0));
    transform.move_direction(Vector2Int::new(1, -1));
    assert_eq!(transform.grid_position, Vector2Int::new(i32::MIN, -1));
    assert_eq!(transform.screen_positon.x, (i32::MIN as i64) * 16);
    assert_eq!(transform.screen_positon.y, -16);
}

#[test]
fn throwing_an_item_makes_an_enemy_and_a_notice() {
    let mut world = World::new();
    let thrower = world.spawn(actor_at(0, 0, 10, 1));
    let target = world.spawn(actor_at(5, 0, 10, 1));
    let mut notices = Vec::new();
    let potion = Item::HealthPotion(HealthPotion::default());
    event_throw_item(&mut world, &mut notices, thrower, &ThrowAction { item: potion, target });
    assert_eq!(world.relationship(target, thrower), Some(Relationship(-500)));
    assert_eq!(notices, vec![Notice::ItemThrown { item: potion, target }]);
    assert_eq!(notices[0].message(), "You threw a [BLUE Health Potion ] at [RED 1v0]");
    let far = Notice::ItemThrown { item: potion, target: Entity(18446744073709551615) };
    assert_eq!(far.message(), "You threw a [BLUE Health Potion ] at [RED 4294967295v4294967295]");
    let round = Notice::ItemThrown { item: potion, target: Entity(4294967296 * 30 + 1070) };
    assert_eq!(round.message(), "You threw a [BLUE Health Potion ] at [RED 1070v30]");
}

#[test]
fn entities_are_found_by_cell_and_the_player_by_its_mark() {
    let mut world = World::new();
    let first = world.spawn(actor_at(2, 2, 10, 1));
    let second = world.spawn(actor_at(2, 2, 10, 1));
    let mut steered = actor_at(4, 4, 10, 1);
    steered.player = Some(PlayerController);
    let player = world.spawn(steered);
    assert_eq!(get_entity_at_grid_position(&world, Vector2Int::new(2, 2)), Some(first));
    assert_eq!(get_entity_at_grid_position(&world, Vector2Int::new(4, 4)), Some(player));
    assert_eq!(get_entity_at_grid_position(&world, Vector2Int::new(9, 9)), None);
    assert_eq!(get_player_entity(&world), Some(player));
    assert_eq!(get_entity_grid_position(&world, second), Vector2Int::new(2, 2));
    let mut other = actor_at(6, 6, 10, 1);
    other.player = Some(PlayerController);
    let later = world.spawn(other);
    assert_eq!(get_player_entity(&world), Some(later));
    assert!(world.despawn(later));
    assert!(!world.despawn(later));
    assert_eq!(get_player_entity(&world), Some(player));
    assert_eq!(get_player_entity(&World::new()), None);
}

#[test]
fn cleanup_keeps_the_living_in_their_order() {
    let mut world = World::new();
    let a = world.spawn(actor_at(0, 0, 3, 1));
    let b = world.spawn(actor_at(0, 1, 0, 1));
    let c = world.spawn(Components::default());
    let d = world.spawn(actor_at(0, 2, 1, 1));
    let e = world.spawn(actor_at(0, 3, 0, 1));
    cleanup_dead_entities(&mut world);
    assert_eq!(world.len(), 3);
    assert_eq!(world.entity(0), a);
    assert_eq!(world.entity(1), c);
    assert_eq!(world.entity(2), d);
    assert!(!world.contains(b));
    assert!(!world.contains(e));
}

#[test]
fn entities_in_sight_are_those_within_ten_cells_as_a_straight_line() {
    let mut world = World::new();
    let me = world.spawn(actor_at(10, 10, 10, 1));
    let on_the_rim = world.spawn(actor_at(16, 18, 10, 1));
    world.spawn(actor_at(17, 18, 10, 1));
    let straight = world.spawn(actor_at(10, 0, 10, 1));
    world.spawn(actor_at(10, 21, 10, 1));
    world.spawn(Components::default());
    assert_eq!(find_entities_in_distance(&world, me, 10), vec![me, on_the_rim, straight]);
    assert_eq!(find_entities_in_distance(&world, me, 0), vec![me]);
}

#[test]
fn the_first_enemy_in_the_list_is_the_target() {
    let mut ledger = Relationships::new();
    ledger.set(Entity(2), Relationship(5));
    ledger.set(Entity(3), Relationship(-5));
    ledger.set(Entity(4), Relationship(-50));
    assert_eq!(
        find_first_enemy(&ledger, &vec![Entity(1), Entity(2), Entity(4), Entity(3)]),
        Some(Entity(4))
    );
    assert_eq!(find_first_enemy(&ledger, &vec![Entity(1), Entity(2)]), None);
    assert_eq!(find_first_enemy(&ledger, &vec![]), None);
}

#[test]
fn the_step_is_the_cell_before_the_last_of_the_path() {
    let path = vec![Vector2Int::new(3, 0), Vector2Int::new(2, 0), Vector2Int::new(1, 0)];
    assert_eq!(step_from_path(&path), Some(Vector2Int::new(2, 0)));
    assert_eq!(step_from_path(&vec![Vector2Int::new(1, 0)]), None);
    assert_eq!(step_from_path(&vec![]), None);
}

#[test]
fn an_entity_attacks_the_enemy_next_to_it() {
    let mut world = World::new();
    let map = open_map();
    let me = world.spawn(actor_at(5, 5, 10, 1));
    let enemy = world.spawn(actor_at(5, 6, 10, 1));
    create_bad_relationship(&mut world, enemy, me);
    let action = get_ai_action(&world, &map, me);
    assert_eq!(
        action,
        Action { cost: 1, event: Events::Attack(AttackAction { amount: 1, target: enemy }) }
    );
}

#[test]
fn an_entity_steps_toward_the_enemy_in_sight() {
    let mut world = World::new();
    let map = open_map();
    let me = world.spawn(actor_at(5, 5, 10, 1));
    let enemy = world.spawn(actor_at(9, 5, 10, 1));
    create_bad_relationship(&mut world, enemy, me);
    let action = get_ai_action(&world, &map, me);
    assert_eq!(action, Action { cost: 1, event: Events::MoveTo(Vector2Int::new(6, 5)) });
}

#[test]
fn an_entity_without_enemy_idles_next_to_where_it_stands() {
    let mut world = World::new();
    let map = open_map();
    let me = world.spawn(actor_at(5, 5, 10, 1));
    world.spawn(actor_at(6, 5, 10, 1));
    for _ in 0..50 {
        let action = get_ai_action(&world, &map, me);
        assert_eq!(action.cost, 1);
        match action.event {
            Events::Empty => {}
            Events::MoveTo(cell) => {
                assert!(cell != Vector2Int::new(5, 5));
                assert!((cell.x - 5).abs() <= 1 && (cell.y - 5).abs() <= 1);
            }
            other => panic!("unexpected event {:?}", other),
        }
    }
}

#[test]
fn idle_steps_follow_the_draw() {
    let here = Vector2Int::new(5, 5);
    assert_eq!(Actor::wander(here, 0, 0), Action { cost: 1, event: Events::Empty });
    assert_eq!(
        Actor::wander(here, -1, 1),
        Action { cost: 1, event: Events::MoveTo(Vector2Int::new(4, 6)) }
    );
    assert_eq!(
        Actor::wander(here, 1, 0),
        Action { cost: 1, event: Events::MoveTo(Vector2Int::new(6, 5)) }
    );
    assert_eq!(
        Actor::wander(Vector2Int::new(i32::MAX, 0), 1, 0),
        Action { cost: 1, event: Events::Empty }
    );
}

#[test]
fn a_new_world_has_the_player_and_a_creature() {
    let (world, player) = setup_world();
    assert_eq!(world.len(), 2);
    assert_eq!(get_player_entity(&world), Some(player));
    assert_eq!(position_of(&world, player), Vector2Int::new(5, 5));
    assert_eq!(physics_of(&world, player), Physics { health: 10, max_health: 10, speed: 1, energy: 0 });
    let creature = world.entity(1);
    assert_eq!(position_of(&world, creature), Vector2Int::new(10, 10));
    assert_eq!(physics_of(&world, creature).speed, 2);
    assert!(!world.is_player(1));
    assert!(world.can_spawn());
}

#[test]
fn components_start_out_empty() {
    assert_eq!(Weapon::default().attack, 0);
    assert_eq!(Physics::default(), Physics::new(0, 0));
    assert_eq!(Captured { owner: Entity(3) }.owner, Entity(3));
    assert_eq!(HealthPotion::default().name(), "Health Potion");
    assert_eq!(HealthPotion::default().description(), "no description");
    assert_eq!(
        Item::HealthPotion(HealthPotion::default()).get_action(),
        Some(Action { cost: 1, event: Events::Empty })
    );
    assert_eq!(Action::default(), Action { cost: 0, event: Events::Empty });
    let mut blow = DamageAction { attacker: None, amount: 9 };
    Invulnerable.take_damage(&mut blow);
    assert_eq!(blow.amount, 0);
    let mut physics = Physics { health: 1, max_health: 1, speed: 7, energy: u64::MAX - 3 };
    physics.generate_energy();
    assert_eq!(physics.energy, u64::MAX);
}

#[test]
fn test_goal_handler() {
    let _goal_handler = GoalHandler {
        goals: vec![Goal::B(B {}), Goal::KillTarget(KillTarget { target: 5 })],
    };
}

#[test]
fn reached_goals_are_dropped_and_give_no_action() {
    let mut handler = GoalHandler {
        goals: vec![Goal::B(B {}), Goal::KillTarget(KillTarget { target: 5 })],
    };
    assert_eq!(handler.get_action(), None);
    assert!(handler.goals.is_empty());
    assert_eq!(handler.get_action(), None);
    let goal = Goal::KillTarget(KillTarget { target: 5 });
    assert!(goal.finished());
    assert!(goal.can_get_action_from_goal());
    assert_eq!(goal.get_action(), Action::default());
    find_action();
}

#[test]
fn items_are_found_by_their_damage() {
    let mut world = World::new();
    for damage in [3, 9, 5, 4] {
        world.spawn(Components {
            item: Some(rogue_core::systems::Item { damage }),
            ..Default::default()
        });
    }
    world.spawn(actor_at(0, 0, 10, 1));
    let found = get_uncommon_items_with_damage_above(&world, 5);
    assert_eq!(
        found,
        vec![rogue_core::systems::Item { damage: 9 }, rogue_core::systems::Item { damage: 5 }]
    );
    assert_eq!(get_uncommon_items_with_damage_above(&world, 10), vec![]);
    assert_eq!(get_uncommon_items_with_damage_above(&world, 0).len(), 4);
}

#[test]
fn an_entity_that_never_decides_needs_no_transform() {
    let mut world = World::new();
    let map = open_map();
    let mut notices = Vec::new();
    let thrower = world.spawn(Components {
        physics: Some(Physics::new(10, 1)),
        actor: Some(Actor::new()),
        ..Default::default()
    });
    let potion = Item::HealthPotion(HealthPotion::default());
    world.queue_action(
        thrower,
        Action { cost: 1, event: Events::ThrowItem(ThrowAction { item: potion, target: Entity(9) }) },
    );
    run_actor_actions(&mut world, &map, &mut notices);
    assert_eq!(notices, vec![Notice::ItemThrown { item: potion, target: Entity(9) }]);
    assert_eq!(physics_of(&world, thrower).energy, 0);
    assert!(world.can_spawn());
}
