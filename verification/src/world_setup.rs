use vstd::prelude::*;
use crate::components::{
    no_relationships, Actor, ActorView, Entity, HealthPotion, Inventory, Item, Physics,
    PlayerController, Transform,
};
use crate::math::Vector2Int;
use crate::world::{Components, EntityView, World};

verus! {

/// The player as a new world has it: on the cell (5, 5), with ten points of
/// health, speed 1 and three health potions.
pub open spec fn starting_player(entity: Entity) -> EntityView {
    EntityView {
        entity,
        transform: Some(Transform::at(Vector2Int { x: 5, y: 5 })),
        physics: Some(Physics { health: 10, max_health: 10, speed: 1, energy: 0 }),
        actor: Some(ActorView { action: None, relationships: no_relationships() }),
        player: true,
        invulnerable: false,
        captured: None,
        items: Some(
            seq![
                Item::HealthPotion(HealthPotion {  }),
                Item::HealthPotion(HealthPotion {  }),
                Item::HealthPotion(HealthPotion {  }),
            ],
        ),
        item: None,
    }
}

/// The creature that a new world has beside the player: on the cell
/// (10, 10), with ten points of health and speed 2.
pub open spec fn starting_creature(entity: Entity) -> EntityView {
    EntityView {
        entity,
        transform: Some(Transform::at(Vector2Int { x: 10, y: 10 })),
        physics: Some(Physics { health: 10, max_health: 10, speed: 2, energy: 0 }),
        actor: Some(ActorView { action: None, relationships: no_relationships() }),
        player: false,
        invulnerable: false,
        captured: None,
        items: None,
        item: None,
    }
}

/// A world with the player and one creature, and the name of the player.
pub fn setup_world() -> (r: (World, Entity))
    ensures
        r.0.wf(),
        r.0.has_room(),
        r.0@.len() == 2,
        r.0@[0] == starting_player(r.1),
        r.0@[1] == starting_creature(r.0@[1].entity),
{
    let mut world = World::new();
    let mut items: Vec<Item> = Vec::new();
    items.push(Item::HealthPotion(HealthPotion {  }));
    items.push(Item::HealthPotion(HealthPotion {  }));
    items.push(Item::HealthPotion(HealthPotion {  }));
    proof {
        assert(items@ =~= seq![
            Item::HealthPotion(HealthPotion {  }),
            Item::HealthPotion(HealthPotion {  }),
            Item::HealthPotion(HealthPotion {  }),
        ]);
    }
    let player = world.spawn(
        Components {
            transform: Some(Transform::new(Vector2Int::new(5, 5))),
            physics: Some(Physics::new(10, 1)),
            actor: Some(Actor::new()),
            player: Some(PlayerController),
            invulnerable: None,
            captured: None,
            inventory: Some(Inventory { items }),
            item: None,
        },
    );
    world.spawn(
        Components {
            transform: Some(Transform::new(Vector2Int::new(10, 10))),
            physics: Some(Physics::new(10, 2)),
            actor: Some(Actor::new()),
            player: None,
            invulnerable: None,
            captured: None,
            inventory: None,
            item: None,
        },
    );
    (world, player)
}

} // verus!
