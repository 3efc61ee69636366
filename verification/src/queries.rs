use vstd::prelude::*;
use crate::components::Entity;
use crate::math::Vector2Int;
use crate::world::{has_entity, index_of, EntityView, World};

verus! {

/// The entity has a transform on the cell `position`.
pub open spec fn stands_on(d: EntityView, position: Vector2Int) -> bool {
    d.transform matches Some(t) && t.grid_position == position
}

/// The cell of the entity `e`, which must exist and have a transform.
pub open spec fn grid_position_of(w: Seq<EntityView>, e: Entity) -> Vector2Int {
    w[index_of(w, e)].transform.unwrap().grid_position
}

/// The entity exists and has a transform.
pub open spec fn is_placed(w: Seq<EntityView>, e: Entity) -> bool {
    has_entity(w, e) && w[index_of(w, e)].transform.is_some()
}

/// The cell on which an entity stands. The entity must exist and have a
/// transform.
pub fn get_entity_grid_position(world: &World, entity: Entity) -> (r: Vector2Int)
    requires
        world.wf(),
        is_placed(world@, entity),
    ensures
        r == grid_position_of(world@, entity),
{
    proof {
        world.lemma_distinct();
    }
    match world.find(entity) {
        Some(i) => {
            proof {
                crate::world::lemma_alter_at(world@, entity, i as int, |d: EntityView| d);
            }
            match world.transform(i) {
                Some(transform) => transform.grid_position,
                None => vstd::pervasive::unreached(),
            }
        },
        None => vstd::pervasive::unreached(),
    }
}

/// The first entity, in the order of the world, that stands on
/// `grid_position`.
pub fn get_entity_at_grid_position(world: &World, grid_position: Vector2Int) -> (r: Option<Entity>)
    ensures
        match r {
            Some(e) => exists|i: int|
                0 <= i < world@.len() && stands_on(#[trigger] world@[i], grid_position)
                    && world@[i].entity == e && forall|j: int|
                    0 <= j < i ==> !stands_on(#[trigger] world@[j], grid_position),
            None => forall|j: int|
                0 <= j < world@.len() ==> !stands_on(#[trigger] world@[j], grid_position),
        },
{
    let mut i: usize = 0;
    while i < world.len()
        invariant
            i <= world@.len(),
            forall|j: int| 0 <= j < i ==> !stands_on(#[trigger] world@[j], grid_position),
        decreases world@.len() - i,
    {
        match world.transform(i) {
            Some(transform) => {
                if transform.grid_position == grid_position {
                    assert(stands_on(world@[i as int], grid_position));
                    return Some(world.entity(i));
                }
            },
            None => {},
        }
        i += 1;
    }
    None
}

/// The entity that the player steers: of several, the one spawned last.
pub fn get_player_entity(world: &World) -> (r: Option<Entity>)
    ensures
        match r {
            Some(e) => exists|i: int|
                0 <= i < world@.len() && (#[trigger] world@[i]).player && world@[i].entity == e
                    && forall|j: int| i < j < world@.len() ==> !(#[trigger] world@[j]).player,
            None => forall|j: int| 0 <= j < world@.len() ==> !(#[trigger] world@[j]).player,
        },
{
    let mut i: usize = world.len();
    while i > 0
        invariant
            i <= world@.len(),
            forall|j: int| i <= j < world@.len() ==> !(#[trigger] world@[j]).player,
        decreases i,
    {
        i -= 1;
        if world.is_player(i) {
            assert(world@[i as int].player);
            return Some(world.entity(i));
        }
    }
    None
}

} // verus!
