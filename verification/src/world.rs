use vstd::prelude::*;
use crate::components::{
    made_hostile, Actor, ActorView, Captured, Entity, Inventory, Invulnerable, Item, Physics,
    PlayerController, Relationship, Relationships, Transform,
};
use crate::events::Action;

verus! {

/// The components that an entity can have.
pub struct Components {
    pub transform: Option<Transform>,
    pub physics: Option<Physics>,
    pub actor: Option<Actor>,
    pub player: Option<PlayerController>,
    pub invulnerable: Option<Invulnerable>,
    pub captured: Option<Captured>,
    pub inventory: Option<Inventory>,
    pub item: Option<crate::systems::Item>,
}

impl Default for Components {
    fn default() -> (r: Self)
        ensures
            r.transform.is_none(),
            r.physics.is_none(),
            r.actor.is_none(),
            r.player.is_none(),
            r.invulnerable.is_none(),
            r.captured.is_none(),
            r.inventory.is_none(),
            r.item.is_none(),
    {
        Components {
            transform: None,
            physics: None,
            actor: None,
            player: None,
            invulnerable: None,
            captured: None,
            inventory: None,
            item: None,
        }
    }
}

/// What an entity is in contracts: its name and what its components hold.
pub ghost struct EntityView {
    pub entity: Entity,
    pub transform: Option<Transform>,
    pub physics: Option<Physics>,
    pub actor: Option<ActorView>,
    pub player: bool,
    pub invulnerable: bool,
    pub captured: Option<Captured>,
    pub items: Option<Seq<Item>>,
    pub item: Option<crate::systems::Item>,
}

/// What an entity named `entity` with the given components is in contracts.
pub open spec fn entity_view(entity: Entity, components: Components) -> EntityView {
    EntityView {
        entity,
        transform: components.transform,
        physics: components.physics,
        actor: match components.actor {
            Some(actor) => Some(actor@),
            None => None,
        },
        player: components.player.is_some(),
        invulnerable: components.invulnerable.is_some(),
        captured: components.captured,
        items: match components.inventory {
            Some(inventory) => Some(inventory.items@),
            None => None,
        },
        item: components.item,
    }
}

/// No two entities bear the same name.
pub open spec fn distinct_ids(w: Seq<EntityView>) -> bool {
    forall|i: int, j: int| 0 <= i < j < w.len() ==> (#[trigger] w[i]).entity != (#[trigger] w[j]).entity
}

/// Some entity bears the name `e`.
pub open spec fn has_entity(w: Seq<EntityView>, e: Entity) -> bool {
    exists|i: int| 0 <= i < w.len() && (#[trigger] w[i]).entity == e
}

/// The place of the entity `e`, where there is one.
pub open spec fn index_of(w: Seq<EntityView>, e: Entity) -> int {
    choose|i: int| 0 <= i < w.len() && (#[trigger] w[i]).entity == e
}

/// The entities with `change` applied to the one named `e`.
pub open spec fn alter(
    w: Seq<EntityView>,
    e: Entity,
    change: spec_fn(EntityView) -> EntityView,
) -> Seq<EntityView> {
    Seq::new(
        w.len(),
        |i: int|
            if w[i].entity == e {
                change(w[i])
            } else {
                w[i]
            },
    )
}

/// An entity with its ledger telling that `other` has done it harm. One
/// without a ledger stays as it is.
pub open spec fn with_enemy(d: EntityView, other: Entity) -> EntityView {
    match d.actor {
        Some(actor) => EntityView {
            actor: Some(
                ActorView { relationships: made_hostile(actor.relationships, other), ..actor },
            ),
            ..d
        },
        None => d,
    }
}

/// An entity with `action` queued for it, or with nothing queued. One that is
/// no actor stays as it is.
pub open spec fn with_action(d: EntityView, action: Option<Action>) -> EntityView {
    match d.actor {
        Some(actor) => EntityView { actor: Some(ActorView { action, ..actor }), ..d },
        None => d,
    }
}

struct EntityData {
    entity: Entity,
    components: Components,
}

/// The entities of a simulation, in the order in which they were spawned.
pub struct World {
    entities: Vec<EntityData>,
    next_id: u64,
}

impl View for World {
    type V = Seq<EntityView>;

    closed spec fn view(&self) -> Seq<EntityView> {
        Seq::new(
            self.entities@.len(),
            |i: int| entity_view(self.entities@[i].entity, self.entities@[i].components),
        )
    }
}

impl World {
    /// No two entities bear the same name, and no name that is still to be
    /// given out is in use.
    pub closed spec fn wf(&self) -> bool {
        &&& distinct_ids(self@)
        &&& forall|i: int| 0 <= i < self@.len() ==> (#[trigger] self@[i]).entity.0 < self.next_id
    }

    /// The number of names given out so far.
    pub closed spec fn names_given(&self) -> nat {
        self.next_id as nat
    }

    /// Whether a name is left for one more entity.
    pub open spec fn has_room(&self) -> bool {
        self.names_given() < u64::MAX
    }

    pub proof fn lemma_distinct(&self)
        requires
            self.wf(),
        ensures
            distinct_ids(self@),
    {
    }

    /// A world without entities.
    pub fn new() -> (world: World)
        ensures
            world.wf(),
            world.names_given() == 0,
            world@ == Seq::<EntityView>::empty(),
    {
        let world = World { entities: Vec::new(), next_id: 0 };
        assert(world@ =~= Seq::<EntityView>::empty());
        world
    }

    /// Whether a name is left for one more entity.
    pub fn can_spawn(&self) -> (r: bool)
        ensures
            r == self.has_room(),
    {
        self.next_id < u64::MAX
    }

    /// Adds an entity with the given components, behind those that exist, and
    /// hands back its name, which no entity bore before.
    pub fn spawn(&mut self, components: Components) -> (entity: Entity)
        requires
            old(self).wf(),
            old(self).has_room(),
        ensures
            final(self).wf(),
            final(self).names_given() == old(self).names_given() + 1,
            entity.0 == old(self).names_given(),
            !has_entity(old(self)@, entity),
            final(self)@ == old(self)@.push(entity_view(entity, components)),
    {
        let entity = Entity(self.next_id);
        self.next_id = self.next_id + 1;
        self.entities.push(EntityData { entity, components });
        proof {
            assert(final(self)@ =~= old(self)@.push(entity_view(entity, components)));
        }
        entity
    }

    /// Adds an entity under a name that the caller has chosen, behind those
    /// that exist, and tells whether it did: not where the name is taken, nor
    /// for the last name there is.
    pub fn spawn_as(&mut self, entity: Entity, components: Components) -> (r: bool)
        requires
            old(self).wf(),
        ensures
            final(self).wf(),
            r == (!has_entity(old(self)@, entity) && entity.0 < u64::MAX),
            r ==> final(self)@ == old(self)@.push(entity_view(entity, components)),
            !r ==> final(self)@ == old(self)@,
            final(self).names_given() == (if r && old(self).names_given() <= entity.0 {
                entity.0 + 1
            } else {
                old(self).names_given() as int
            }),
    {
        if entity.0 == u64::MAX || self.contains(entity) {
            return false;
        }
        if self.next_id <= entity.0 {
            self.next_id = entity.0 + 1;
        }
        self.entities.push(EntityData { entity, components });
        proof {
            assert(final(self)@ =~= old(self)@.push(entity_view(entity, components)));
            assert forall|i: int, j: int| 0 <= i < j < final(self)@.len() implies (
            #[trigger] final(self)@[i]).entity != (#[trigger] final(self)@[j]).entity by {
                if j < old(self)@.len() {
                    assert(old(self)@[i].entity != old(self)@[j].entity);
                } else {
                    assert(old(self)@[i].entity != entity);
                }
            }
            assert forall|i: int| 0 <= i < final(self)@.len() implies (
            #[trigger] final(self)@[i]).entity.0 < self.next_id by {
                if i < old(self)@.len() {
                    assert(old(self)@[i].entity.0 < old(self).next_id);
                }
            }
        }
        true
    }

    /// The number of entities.
    pub fn len(&self) -> (r: usize)
        ensures
            r == self@.len(),
    {
        self.entities.len()
    }

    /// The place of the entity `entity` among the entities, if it exists.
    pub fn find(&self, entity: Entity) -> (r: Option<usize>)
        ensures
            match r {
                Some(i) => i < self@.len() && self@[i as int].entity == entity && forall|j: int|
                    0 <= j < i ==> (#[trigger] self@[j]).entity != entity,
                None => !has_entity(self@, entity),
            },
    {
        let mut i: usize = 0;
        while i < self.entities.len()
            invariant
                i <= self.entities.len(),
                forall|j: int| 0 <= j < i ==> (#[trigger] self@[j]).entity != entity,
            decreases self.entities.len() - i,
        {
            if self.entities[i].entity == entity {
                return Some(i);
            }
            i += 1;
        }
        None
    }

    /// Whether the entity exists.
    pub fn contains(&self, entity: Entity) -> (r: bool)
        ensures
            r == has_entity(self@, entity),
    {
        self.find(entity).is_some()
    }

    /// Takes the entity out of the world. The others keep their order.
    pub fn despawn(&mut self, entity: Entity) -> (r: bool)
        requires
            old(self).wf(),
        ensures
            final(self).wf(),
            final(self).names_given() == old(self).names_given(),
            r == has_entity(old(self)@, entity),
            r ==> final(self)@ == old(self)@.remove(index_of(old(self)@, entity)),
            !r ==> final(self)@ == old(self)@,
            !has_entity(final(self)@, entity),
    {
        match self.find(entity) {
            Some(i) => {
                self.entities.remove(i);
                proof {
                    let before = old(self)@;
                    let k = index_of(before, entity);
                    if k != i {
                        if k < i {
                            assert(before[k].entity != before[i as int].entity);
                        } else {
                            assert(before[i as int].entity != before[k].entity);
                        }
                    }
                    assert(final(self)@ =~= before.remove(i as int));
                    assert forall|a: int, b: int| 0 <= a < b < final(self)@.len() implies (
                    #[trigger] final(self)@[a]).entity != (#[trigger] final(self)@[b]).entity by {
                        let oa = if a < i { a } else { a + 1 };
                        let ob = if b < i { b } else { b + 1 };
                        assert(before[oa].entity != before[ob].entity);
                    }
                    assert forall|a: int| 0 <= a < final(self)@.len() implies (
                    #[trigger] final(self)@[a]).entity != entity by {
                        let oa = if a < i { a } else { a + 1 };
                        if oa < i {
                            assert(before[oa].entity != before[i as int].entity);
                        } else {
                            assert(before[i as int].entity != before[oa].entity);
                        }
                    }
                    assert forall|a: int| 0 <= a < final(self)@.len() implies (
                    #[trigger] final(self)@[a]).entity.0 < self.next_id by {
                        let oa = if a < i { a } else { a + 1 };
                        assert(before[oa].entity.0 < self.next_id);
                    }
                }
                true
            },
            None => false,
        }
    }

    /// Takes the entity at `index` out of the world. The others keep their
    /// order.
    pub fn remove(&mut self, index: usize)
        requires
            old(self).wf(),
            index < old(self)@.len(),
        ensures
            final(self).wf(),
            final(self).names_given() == old(self).names_given(),
            final(self)@ == old(self)@.remove(index as int),
    {
        self.entities.remove(index);
        proof {
            let before = old(self)@;
            assert(final(self)@ =~= before.remove(index as int));
            assert forall|a: int, b: int| 0 <= a < b < final(self)@.len() implies (
            #[trigger] final(self)@[a]).entity != (#[trigger] final(self)@[b]).entity by {
                let oa = if a < index { a } else { a + 1 };
                let ob = if b < index { b } else { b + 1 };
                assert(before[oa].entity != before[ob].entity);
            }
            assert forall|a: int| 0 <= a < final(self)@.len() implies (
            #[trigger] final(self)@[a]).entity.0 < self.next_id by {
                let oa = if a < index { a } else { a + 1 };
                assert(before[oa].entity.0 < self.next_id);
            }
        }
    }

    /// The name of the entity at `index`.
    pub fn entity(&self, index: usize) -> (r: Entity)
        requires
            index < self@.len(),
        ensures
            r == self@[index as int].entity,
    {
        self.entities[index].entity
    }

    /// Where the entity at `index` stands, if it has a transform.
    pub fn transform(&self, index: usize) -> (r: Option<Transform>)
        requires
            index < self@.len(),
        ensures
            r == self@[index as int].transform,
    {
        self.entities[index].components.transform
    }

    /// The vitals of the entity at `index`, if it has any.
    pub fn physics(&self, index: usize) -> (r: Option<Physics>)
        requires
            index < self@.len(),
        ensures
            r == self@[index as int].physics,
    {
        self.entities[index].components.physics
    }

    /// Whether the entity at `index` is an actor.
    pub fn is_actor(&self, index: usize) -> (r: bool)
        requires
            index < self@.len(),
        ensures
            r == self@[index as int].actor.is_some(),
    {
        self.entities[index].components.actor.is_some()
    }

    /// The action queued for the entity at `index`, if it is an actor and one is
    /// queued.
    pub fn queued_action(&self, index: usize) -> (r: Option<Action>)
        requires
            index < self@.len(),
        ensures
            r == (match self@[index as int].actor {
                Some(actor) => actor.action,
                None => None,
            }),
    {
        match &self.entities[index].components.actor {
            Some(actor) => actor.action,
            None => None,
        }
    }

    /// The turn state of the entity at `index`, if it is an actor.
    pub fn actor(&self, index: usize) -> (r: Option<&Actor>)
        requires
            index < self@.len(),
        ensures
            r.is_some() == self@[index as int].actor.is_some(),
            r matches Some(actor) ==> actor@ == self@[index as int].actor.unwrap(),
    {
        match &self.entities[index].components.actor {
            Some(actor) => Some(actor),
            None => None,
        }
    }

    /// The ledger of the entity at `index`, if it is an actor.
    pub fn relationships(&self, index: usize) -> (r: Option<&Relationships>)
        requires
            index < self@.len(),
        ensures
            r.is_some() == self@[index as int].actor.is_some(),
            r matches Some(ledger) ==> ledger@ == self@[index as int].actor.unwrap().relationships,
    {
        match &self.entities[index].components.actor {
            Some(actor) => Some(&actor.relationships),
            None => None,
        }
    }

    /// How the entity `owner` stands to `other`, if its ledger says.
    pub fn relationship(&self, owner: Entity, other: Entity) -> (r: Option<Relationship>)
        requires
            self.wf(),
        ensures
            r == (if has_entity(self@, owner) && self@[index_of(self@, owner)].actor.is_some() {
                self@[index_of(self@, owner)].actor.unwrap().relationships.get(other)
            } else {
                None
            }),
    {
        match self.find(owner) {
            Some(i) => {
                proof {
                    let k = index_of(self@, owner);
                    if k < i {
                        assert(self@[k].entity != self@[i as int].entity);
                    } else if i < k {
                        assert(self@[i as int].entity != self@[k].entity);
                    }
                }
                match self.relationships(i) {
                    Some(ledger) => ledger.get(other),
                    None => None,
                }
            },
            None => None,
        }
    }

    /// What the entity at `index` is as a thing of its own, if it is one.
    pub fn item(&self, index: usize) -> (r: Option<crate::systems::Item>)
        requires
            index < self@.len(),
        ensures
            r == self@[index as int].item,
    {
        self.entities[index].components.item
    }

    /// Whether the player steers the entity at `index`.
    pub fn is_player(&self, index: usize) -> (r: bool)
        requires
            index < self@.len(),
        ensures
            r == self@[index as int].player,
    {
        self.entities[index].components.player.is_some()
    }

    /// Whether no damage can hurt the entity at `index`.
    pub fn is_invulnerable(&self, index: usize) -> (r: bool)
        requires
            index < self@.len(),
        ensures
            r == self@[index as int].invulnerable,
    {
        self.entities[index].components.invulnerable.is_some()
    }

    /// Gives the entity at `index` a transform in place of the one it has.
    pub fn set_transform(&mut self, index: usize, transform: Transform)
        requires
            index < old(self)@.len(),
        ensures
            old(self).wf() ==> final(self).wf(),
            final(self).names_given() == old(self).names_given(),
            final(self)@ == old(self)@.update(
                index as int,
                EntityView { transform: Some(transform), ..old(self)@[index as int] },
            ),
    {
        self.entities[index].components.transform = Some(transform);
        proof {
            assert(final(self)@ =~= old(self)@.update(
                index as int,
                EntityView { transform: Some(transform), ..old(self)@[index as int] },
            ));
        }
    }

    /// Gives the entity at `index` vitals in place of those it has.
    pub fn set_physics(&mut self, index: usize, physics: Physics)
        requires
            index < old(self)@.len(),
        ensures
            old(self).wf() ==> final(self).wf(),
            final(self).names_given() == old(self).names_given(),
            final(self)@ == old(self)@.update(
                index as int,
                EntityView { physics: Some(physics), ..old(self)@[index as int] },
            ),
    {
        self.entities[index].components.physics = Some(physics);
        proof {
            assert(final(self)@ =~= old(self)@.update(
                index as int,
                EntityView { physics: Some(physics), ..old(self)@[index as int] },
            ));
        }
    }

    /// Queues `action` for the entity at `index`, or clears what is queued,
    /// if the entity is an actor.
    pub fn set_action(&mut self, index: usize, action: Option<Action>)
        requires
            index < old(self)@.len(),
        ensures
            old(self).wf() ==> final(self).wf(),
            final(self).names_given() == old(self).names_given(),
            final(self)@ == old(self)@.update(
                index as int,
                with_action(old(self)@[index as int], action),
            ),
    {
        match &mut self.entities[index].components.actor {
            Some(actor) => {
                actor.action = action;
            },
            None => {},
        }
        proof {
            assert(final(self)@ =~= old(self)@.update(
                index as int,
                with_action(old(self)@[index as int], action),
            ));
        }
    }

    /// Queues `action` for the entity `entity`. Tells whether the entity
    /// exists and is an actor; nothing changes where it is not.
    pub fn queue_action(&mut self, entity: Entity, action: Action) -> (r: bool)
        requires
            old(self).wf(),
        ensures
            final(self).wf(),
            final(self).names_given() == old(self).names_given(),
            final(self)@ == alter(old(self)@, entity, |d: EntityView| with_action(d, Some(action))),
            r == (has_entity(old(self)@, entity) && old(self)@[index_of(
                old(self)@,
                entity,
            )].actor.is_some()),
    {
        match self.find(entity) {
            Some(i) => {
                let acts = self.is_actor(i);
                self.set_action(i, Some(action));
                proof {
                    let before = old(self)@;
                    let k = index_of(before, entity);
                    if k < i {
                        assert(before[k].entity != before[i as int].entity);
                    } else if i < k {
                        assert(before[i as int].entity != before[k].entity);
                    }
                    assert forall|j: int| 0 <= j < before.len() && j != i implies (
                    #[trigger] before[j]).entity != entity by {
                        if j < i {
                            assert(before[j].entity != before[i as int].entity);
                        } else {
                            assert(before[i as int].entity != before[j].entity);
                        }
                    }
                    assert(final(self)@ =~= alter(
                        before,
                        entity,
                        |d: EntityView| with_action(d, Some(action)),
                    ));
                }
                acts
            },
            None => {
                proof {
                    assert(final(self)@ =~= alter(
                        old(self)@,
                        entity,
                        |d: EntityView| with_action(d, Some(action)),
                    ));
                }
                false
            },
        }
    }

    /// Records in the ledger of the entity at `index` that `other` has done it
    /// harm. An entity without a ledger stays as it is.
    pub fn make_hostile(&mut self, index: usize, other: Entity)
        requires
            index < old(self)@.len(),
        ensures
            old(self).wf() ==> final(self).wf(),
            final(self).names_given() == old(self).names_given(),
            final(self)@ == old(self)@.update(
                index as int,
                with_enemy(old(self)@[index as int], other),
            ),
    {
        match &mut self.entities[index].components.actor {
            Some(actor) => {
                actor.relationships.make_hostile(other);
            },
            None => {},
        }
        proof {
            assert(final(self)@ =~= old(self)@.update(
                index as int,
                with_enemy(old(self)@[index as int], other),
            ));
        }
    }
}


/// The names of the entities that `wanted` holds of, in their order.
pub open spec fn select(w: Seq<EntityView>, wanted: spec_fn(EntityView) -> bool) -> Seq<Entity>
    decreases w.len(),
{
    if w.len() == 0 {
        Seq::empty()
    } else if wanted(w.last()) {
        select(w.drop_last(), wanted).push(w.last().entity)
    } else {
        select(w.drop_last(), wanted)
    }
}

/// Where entities bear different names, a change to the one named `e` is a
/// change at its place and nowhere else.
pub proof fn lemma_alter_at(
    w: Seq<EntityView>,
    e: Entity,
    i: int,
    change: spec_fn(EntityView) -> EntityView,
)
    requires
        distinct_ids(w),
        0 <= i < w.len(),
        w[i].entity == e,
    ensures
        alter(w, e, change) == w.update(i, change(w[i])),
        index_of(w, e) == i,
{
    assert forall|j: int| 0 <= j < w.len() && j != i implies (#[trigger] w[j]).entity != e by {
        if j < i {
            assert(w[j].entity != w[i].entity);
        } else {
            assert(w[i].entity != w[j].entity);
        }
    }
    assert(alter(w, e, change) =~= w.update(i, change(w[i])));
}

/// A change to an entity that does not exist changes nothing.
pub proof fn lemma_alter_absent(
    w: Seq<EntityView>,
    e: Entity,
    change: spec_fn(EntityView) -> EntityView,
)
    requires
        !has_entity(w, e),
    ensures
        alter(w, e, change) == w,
{
    assert(alter(w, e, change) =~= w);
}

/// One more entity adds its name to a selection, or nothing.
pub proof fn lemma_select_step(w: Seq<EntityView>, wanted: spec_fn(EntityView) -> bool, i: int)
    requires
        0 <= i < w.len(),
    ensures
        select(w.take(i + 1), wanted) == (if wanted(w[i]) {
            select(w.take(i), wanted).push(w[i].entity)
        } else {
            select(w.take(i), wanted)
        }),
{
    assert(w.take(i + 1).drop_last() =~= w.take(i));
    assert(w.take(i + 1).last() == w[i]);
}

/// A selection holds the names of the entities that `wanted` holds of, and no
/// other.
pub proof fn lemma_select_contains(
    w: Seq<EntityView>,
    wanted: spec_fn(EntityView) -> bool,
    e: Entity,
)
    ensures
        select(w, wanted).contains(e) <==> exists|i: int|
            0 <= i < w.len() && (#[trigger] w[i]).entity == e && wanted(w[i]),
    decreases w.len(),
{
    if w.len() > 0 {
        let rest = w.drop_last();
        lemma_select_contains(rest, wanted, e);
        let chosen = select(w, wanted);
        let before = select(rest, wanted);
        if select(w, wanted).contains(e) {
            let k = choose|k: int| 0 <= k < chosen.len() && chosen[k] == e;
            if wanted(w.last()) && k == before.len() {
                assert(w[w.len() - 1].entity == e && wanted(w[w.len() - 1]));
            } else {
                assert(before[k] == e);
                let i = choose|i: int|
                    0 <= i < rest.len() && (#[trigger] rest[i]).entity == e && wanted(rest[i]);
                assert(w[i].entity == e && wanted(w[i]));
            }
        }
        if exists|i: int| 0 <= i < w.len() && (#[trigger] w[i]).entity == e && wanted(w[i]) {
            let i = choose|i: int| 0 <= i < w.len() && (#[trigger] w[i]).entity == e && wanted(w[i]);
            if i == w.len() - 1 {
                assert(chosen[before.len() as int] == e);
            } else {
                assert(rest[i].entity == e && wanted(rest[i]));
                let k = choose|k: int| 0 <= k < before.len() && before[k] == e;
                assert(chosen[k] == e);
            }
        }
    }
}

} // verus!
