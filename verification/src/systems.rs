use std::collections::VecDeque;
use vstd::prelude::*;
use crate::components::{energy_after, Entity, Physics};
use crate::events::{
    ai_may_choose, can_decide, get_ai_action, notices_of, resolve, run_event_system_hecs, Action,
    Notice,
};
use crate::map::WorldMap;
use crate::world::{
    alter, distinct_ids, has_entity, index_of, lemma_alter_absent, lemma_alter_at, with_action,
    with_enemy, EntityView, World,
};

verus! {

/// Records that `entity` has done harm to `target`: in the ledger of `target`
/// the score toward `entity` drops to the hostile score unless it is lower
/// already. A target that does not exist or keeps no ledger stays as it is.
pub fn create_bad_relationship(world: &mut World, entity: Entity, target: Entity)
    requires
        old(world).wf(),
    ensures
        final(world).wf(),
        final(world).names_given() == old(world).names_given(),
        final(world)@ == alter(old(world)@, target, |d: EntityView| with_enemy(d, entity)),
{
    let ghost before = world@;
    proof {
        world.lemma_distinct();
    }
    match world.find(target) {
        Some(i) => {
            proof {
                lemma_alter_at(before, target, i as int, |d: EntityView| with_enemy(d, entity));
            }
            world.make_hostile(i, entity);
        },
        None => {
            proof {
                lemma_alter_absent(before, target, |d: EntityView| with_enemy(d, entity));
            }
        },
    }
}

/// How rare an item is.
#[derive(Clone, Copy, Debug, PartialEq, Eq, Structural)]
pub enum Rarity {
    Uncommon,
}

/// A thing with the damage that it deals.
#[derive(Clone, Copy, Debug, PartialEq, Eq, Structural)]
pub struct Item {
    pub damage: u32,
}

/// The items among the entities that deal at least `dmg` damage, in the order
/// of the world.
pub open spec fn items_with_damage(w: Seq<EntityView>, dmg: u32) -> Seq<Item>
    decreases w.len(),
{
    if w.len() == 0 {
        Seq::empty()
    } else {
        match w.last().item {
            Some(item) => if item.damage >= dmg {
                items_with_damage(w.drop_last(), dmg).push(item)
            } else {
                items_with_damage(w.drop_last(), dmg)
            },
            None => items_with_damage(w.drop_last(), dmg),
        }
    }
}

/// The items among the entities that deal at least `dmg` damage, in the order
/// of the world.
pub fn get_uncommon_items_with_damage_above(world: &World, dmg: u32) -> (r: Vec<Item>)
    ensures
        r@ == items_with_damage(world@, dmg),
{
    let mut found: Vec<Item> = Vec::new();
    let mut i: usize = 0;
    proof {
        assert(world@.take(0) =~= Seq::<EntityView>::empty());
    }
    while i < world.len()
        invariant
            i <= world@.len(),
            found@ == items_with_damage(world@.take(i as int), dmg),
        decreases world@.len() - i,
    {
        proof {
            assert(world@.take(i + 1).drop_last() =~= world@.take(i as int));
            assert(world@.take(i + 1).last() == world@[i as int]);
        }
        match world.item(i) {
            Some(item) => {
                if item.damage >= dmg {
                    found.push(item);
                }
            },
            None => {},
        }
        i += 1;
    }
    proof {
        assert(world@.take(world@.len() as int) =~= world@);
    }
    found
}

/// The entity takes turns: it has vitals and is an actor.
pub open spec fn takes_turns(d: EntityView) -> bool {
    d.physics.is_some() && d.actor.is_some()
}

/// An entity after the regeneration that opens a scheduling pass: one that
/// takes turns has gained its speed in energy.
pub open spec fn energized(d: EntityView) -> EntityView {
    if takes_turns(d) {
        let p = d.physics.unwrap();
        EntityView { physics: Some(Physics { energy: energy_after(p.energy, p.speed), ..p }), ..d }
    } else {
        d
    }
}

/// The entities after the regeneration that opens a scheduling pass.
pub open spec fn regenerated(w: Seq<EntityView>) -> Seq<EntityView> {
    Seq::new(w.len(), |i: int| energized(w[i]))
}

/// An entity after it has paid `cost` in energy.
pub open spec fn paid(d: EntityView, cost: u32) -> EntityView {
    match d.physics {
        Some(p) => EntityView {
            physics: Some(Physics { energy: (p.energy - cost) as u64, ..p }),
            ..d
        },
        None => d,
    }
}

/// The entity may come to decide on an action by itself within a pass:
/// nothing is queued for it, or what is queued leaves it energy for more.
pub open spec fn may_decide(d: EntityView) -> bool {
    match d.actor {
        Some(actor) => match actor.action {
            None => true,
            Some(queued) => d.physics matches Some(p) && queued.cost < p.energy,
        },
        None => false,
    }
}

/// The entity at `k` in the line waits there another time as well.
pub open spec fn waits_again(queue: Seq<Entity>, k: int) -> bool {
    exists|j: int| 0 <= j < queue.len() && j != k && #[trigger] queue[j] == queue[k]
}

/// The entity at `k` in the line exists and takes turns, and has a transform
/// if it may come to decide on an action by itself: because nothing is queued
/// for it, because what is queued leaves it energy for more, or because it
/// waits in the line another time.
pub open spec fn can_take_turn(w: Seq<EntityView>, queue: Seq<Entity>, k: int) -> bool {
    &&& has_entity(w, queue[k])
    &&& takes_turns(w[index_of(w, queue[k])])
    &&& (may_decide(w[index_of(w, queue[k])]) || waits_again(queue, k) ==> w[index_of(
        w,
        queue[k],
    )].transform.is_some())
}

/// Each entity that waits for its turn can take it.
pub open spec fn ready(w: Seq<EntityView>, queue: Seq<Entity>) -> bool {
    forall|k: int| 0 <= k < queue.len() ==> #[trigger] can_take_turn(w, queue, k)
}

/// The speed of the entity `e`.
pub open spec fn speed_of(w: Seq<EntityView>, e: Entity) -> int {
    w[index_of(w, e)].physics.unwrap().speed as int
}

/// `queue` holds each entity that takes turns once, the faster before the
/// slower, and of two that are as fast the one that comes first in the world
/// before the other.
pub open spec fn is_turn_order(w: Seq<EntityView>, queue: Seq<Entity>) -> bool {
    &&& queue.no_duplicates()
    &&& forall|e: Entity| #[trigger]
        queue.contains(e) <==> has_entity(w, e) && takes_turns(w[index_of(w, e)])
    &&& forall|i: int, j: int|
        0 <= i < j < queue.len() ==> speed_of(w, #[trigger] queue[i]) >= speed_of(
            w,
            #[trigger] queue[j],
        )
    &&& forall|i: int, j: int|
        0 <= i < j < queue.len() && speed_of(w, #[trigger] queue[i]) == speed_of(
            w,
            #[trigger] queue[j],
        ) ==> index_of(w, queue[i]) < index_of(w, queue[j])
}

/// A moment of a scheduling pass: the entities, those that wait for a turn,
/// first in line first, and what the log has heard.
pub ghost struct TurnState {
    pub w: Seq<EntityView>,
    pub queue: Seq<Entity>,
    pub notices: Seq<Notice>,
}

/// The action may be the one that the entity `e` takes in its turn: what is
/// queued for it, or else what it may decide on by itself.
pub open spec fn may_act(w: Seq<EntityView>, map: WorldMap, e: Entity, action: Action) -> bool {
    match w[index_of(w, e)].actor.unwrap().action {
        Some(queued) => action == queued,
        None => ai_may_choose(w, map, e, action),
    }
}

/// The pass after the turn of the first entity in line, in which it takes
/// `action`. What was queued for it is used up. If its energy covers the cost,
/// it pays, the action is resolved, and with energy left it goes to the back
/// of the line. If not, the action is dropped and the entity leaves the line.
pub open spec fn after_turn(s: TurnState, map: WorldMap, action: Action) -> TurnState {
    let e = s.queue[0];
    let rest = s.queue.subrange(1, s.queue.len() as int);
    let cleared = alter(s.w, e, |d: EntityView| with_action(d, None));
    let energy = s.w[index_of(s.w, e)].physics.unwrap().energy;
    if action.cost <= energy {
        let debited = alter(cleared, e, |d: EntityView| paid(d, action.cost));
        TurnState {
            w: resolve(debited, map, e, action.event),
            queue: if energy - action.cost > 0 {
                rest.push(e)
            } else {
                rest
            },
            notices: s.notices + notices_of(debited, map, e, action.event),
        }
    } else {
        TurnState { w: cleared, queue: rest, notices: s.notices }
    }
}

/// `next` is the pass one turn after `s`.
#[verifier::opaque]
pub open spec fn is_turn(s: TurnState, map: WorldMap, next: TurnState) -> bool {
    s.queue.len() > 0 && exists|action: Action| #[trigger]
        may_act(s.w, map, s.queue[0], action) && next == after_turn(s, map, action)
}

/// Each moment of `trace` is one turn after the moment before.
pub open spec fn is_run(trace: Seq<TurnState>, map: WorldMap) -> bool {
    &&& trace.len() >= 1
    &&& forall|i: int| 0 <= i < trace.len() - 1 ==> is_turn(#[trigger] trace[i], map, trace[i + 1])
}

/// Turn after turn leads from `start` to `end`, where nobody waits any more.
pub open spec fn drains(start: TurnState, map: WorldMap, end: TurnState) -> bool {
    exists|trace: Seq<TurnState>| #[trigger]
        is_run(trace, map) && trace[0] == start && trace[trace.len() - 1] == end
            && end.queue.len() == 0
}

/// What an entity still has to spend: its energy, and one more while an
/// action is queued for it.
pub open spec fn burden(d: EntityView) -> nat {
    (match d.physics {
        Some(p) => p.energy as nat,
        None => 0,
    }) + (match d.actor {
        Some(a) => if a.action.is_some() {
            1nat
        } else {
            0
        },
        None => 0,
    })
}

/// What all entities together still have to spend.
pub open spec fn total_burden(w: Seq<EntityView>) -> nat
    decreases w.len(),
{
    if w.len() == 0 {
        0
    } else {
        total_burden(w.drop_last()) + burden(w.last())
    }
}

/// Two entities agree in what a scheduling pass goes by: the name, which
/// components there are, the energy and the queued action.
pub open spec fn same_turn_data(a: EntityView, b: EntityView) -> bool {
    &&& a.entity == b.entity
    &&& a.transform.is_some() == b.transform.is_some()
    &&& a.physics.is_some() == b.physics.is_some()
    &&& a.actor.is_some() == b.actor.is_some()
    &&& a.player == b.player
    &&& a.invulnerable == b.invulnerable
    &&& (a.physics matches Some(p) ==> p.energy == b.physics.unwrap().energy && p.speed
        == b.physics.unwrap().speed)
    &&& (a.actor matches Some(actor) ==> actor.action == b.actor.unwrap().action)
}

/// Entity by entity, `a` and `b` agree in what a scheduling pass goes by.
pub open spec fn same_turn_data_all(a: Seq<EntityView>, b: Seq<EntityView>) -> bool {
    a.len() == b.len() && forall|i: int| 0 <= i < a.len() ==> same_turn_data(#[trigger] a[i], b[i])
}

proof fn lemma_burden_update(w: Seq<EntityView>, i: int, d: EntityView)
    requires
        0 <= i < w.len(),
    ensures
        total_burden(w.update(i, d)) + burden(w[i]) == total_burden(w) + burden(d),
    decreases w.len(),
{
    let u = w.update(i, d);
    if i == w.len() - 1 {
        assert(u.drop_last() =~= w.drop_last());
    } else {
        assert(u.drop_last() =~= w.drop_last().update(i, d));
        lemma_burden_update(w.drop_last(), i, d);
    }
}

proof fn lemma_burden_same(a: Seq<EntityView>, b: Seq<EntityView>)
    requires
        same_turn_data_all(a, b),
    ensures
        total_burden(a) == total_burden(b),
    decreases a.len(),
{
    if a.len() > 0 {
        assert(same_turn_data(a[a.len() - 1], b[a.len() - 1]));
        assert forall|i: int| 0 <= i < a.drop_last().len() implies same_turn_data(
            #[trigger] a.drop_last()[i],
            b.drop_last()[i],
        ) by {
            assert(same_turn_data(a[i], b[i]));
        }
        lemma_burden_same(a.drop_last(), b.drop_last());
    }
}

/// Resolving an event leaves every name, every component in its place, every
/// energy and every queued action as it was.
pub proof fn lemma_resolve_keeps_turn_data(
    w: Seq<EntityView>,
    map: WorldMap,
    ent: Entity,
    event: crate::events::Events,
)
    ensures
        same_turn_data_all(w, resolve(w, map, ent, event)),
{
    let after = resolve(w, map, ent, event);
    assert(after.len() == w.len());
    assert forall|i: int| 0 <= i < w.len() implies same_turn_data(#[trigger] w[i], after[i]) by {}
}

/// The turn of the first entity in line. It takes the action queued for it,
/// or decides on one by itself; see `after_turn` for what follows.
pub fn fire_next_action(
    world: &mut World,
    map: &WorldMap,
    notices: &mut Vec<Notice>,
    entities: &mut VecDeque<Entity>,
)
    requires
        old(world).wf(),
        map.wf(),
        old(entities)@.len() > 0,
        ready(old(world)@, old(entities)@),
    ensures
        final(world).wf(),
        final(world).names_given() == old(world).names_given(),
        ready(final(world)@, final(entities)@),
        is_turn(
            TurnState { w: old(world)@, queue: old(entities)@, notices: old(notices)@ },
            *map,
            TurnState { w: final(world)@, queue: final(entities)@, notices: final(notices)@ },
        ),
        total_burden(final(world)@) < total_burden(old(world)@) || (total_burden(final(world)@)
            == total_burden(old(world)@) && final(entities)@.len() < old(entities)@.len()),
{
    let ghost s = TurnState { w: world@, queue: entities@, notices: notices@ };
    proof {
        world.lemma_distinct();
    }
    let e = match entities.pop_front() {
        Some(e) => e,
        None => vstd::pervasive::unreached(),
    };
    let ghost rest = entities@;
    assert(can_take_turn(s.w, s.queue, 0));
    let i = match world.find(e) {
        Some(i) => i,
        None => vstd::pervasive::unreached(),
    };
    proof {
        lemma_alter_at(s.w, e, i as int, |d: EntityView| with_action(d, None));
    }
    let action = match world.queued_action(i) {
        Some(queued) => {
            world.set_action(i, None);
            queued
        },
        None => {
            proof {
                assert(with_action(s.w[i as int], None) == s.w[i as int]);
                assert(s.w.update(i as int, s.w[i as int]) =~= s.w);
            }
            get_ai_action(world, map, e)
        },
    };
    let ghost cleared = world@;
    assert(cleared == alter(s.w, e, |d: EntityView| with_action(d, None)));
    assert(may_act(s.w, *map, e, action));
    proof {
        lemma_burden_update(s.w, i as int, with_action(s.w[i as int], None));
    }
    let physics = match world.physics(i) {
        Some(physics) => physics,
        None => vstd::pervasive::unreached(),
    };
    if action.cost as u64 <= physics.energy {
        let left: u64 = physics.energy - action.cost as u64;
        proof {
            world.lemma_distinct();
            lemma_alter_at(cleared, e, i as int, |d: EntityView| paid(d, action.cost));
            lemma_burden_update(cleared, i as int, paid(cleared[i as int], action.cost));
        }
        world.set_physics(i, Physics { energy: left, ..physics });
        let ghost debited = world@;
        assert(debited == alter(cleared, e, |d: EntityView| paid(d, action.cost)));
        if left > 0 {
            entities.push_back(e);
        }
        let mut event = action.event;
        run_event_system_hecs(world, map, notices, e, &mut event);
        proof {
            lemma_resolve_keeps_turn_data(debited, *map, e, action.event);
            lemma_burden_same(debited, world@);
            lemma_ready_after(s.w, debited, world@, s.queue, entities@, i as int);
            assert(TurnState { w: world@, queue: entities@, notices: notices@ } == after_turn(
                s,
                *map,
                action,
            ));
            reveal(is_turn);
        }
    } else {
        proof {
            lemma_ready_after(s.w, cleared, cleared, s.queue, rest, i as int);
            assert(TurnState { w: world@, queue: entities@, notices: notices@ } == after_turn(
                s,
                *map,
                action,
            ));
            reveal(is_turn);
        }
    }
}

/// The line after the turn of its first entity, which stands at `i` in the
/// world, holds entities that can still take their turn.
proof fn lemma_ready_after(
    start: Seq<EntityView>,
    middle: Seq<EntityView>,
    end: Seq<EntityView>,
    line: Seq<Entity>,
    queue: Seq<Entity>,
    i: int,
)
    requires
        distinct_ids(start),
        line.len() > 0,
        ready(start, line),
        0 <= i < start.len(),
        start[i].entity == line[0],
        middle.len() == start.len(),
        forall|k: int| 0 <= k < start.len() && k != i ==> #[trigger] middle[k] == start[k],
        middle[i].entity == line[0],
        takes_turns(middle[i]),
        middle[i].transform.is_some() == start[i].transform.is_some(),
        same_turn_data_all(middle, end),
        queue == line.subrange(1, line.len() as int) || (queue == line.subrange(
            1,
            line.len() as int,
        ).push(line[0]) && start[i].transform.is_some()),
    ensures
        ready(end, queue),
{
    let e = line[0];
    let rest = line.subrange(1, line.len() as int);
    assert forall|a: int, b: int| 0 <= a < b < end.len() implies (#[trigger] end[a]).entity != (
    #[trigger] end[b]).entity by {
        assert(same_turn_data(middle[a], end[a]) && same_turn_data(middle[b], end[b]));
        assert(start[a].entity == middle[a].entity && start[b].entity == middle[b].entity);
        assert(start[a].entity != start[b].entity);
    }
    assert forall|k: int| 0 <= k < queue.len() implies #[trigger] can_take_turn(end, queue, k) by {
        let q = queue[k];
        let at = if k < rest.len() {
            assert(q == line[k + 1]);
            assert(can_take_turn(start, line, k + 1));
            index_of(start, q)
        } else {
            i
        };
        assert(start[at].entity == q);
        assert(same_turn_data(middle[at], end[at]));
        assert(middle[at].entity == q);
        assert(end[at].entity == q);
        let j = index_of(end, q);
        if at < j {
            assert(end[at].entity != end[j].entity);
        } else if j < at {
            assert(end[j].entity != end[at].entity);
        }
        if k < rest.len() {
            if q == e {
                assert(line[0] == line[k + 1]);
                assert(waits_again(line, k + 1));
                assert(at == i) by {
                    if at < i {
                        assert(start[at].entity != start[i].entity);
                    } else if i < at {
                        assert(start[i].entity != start[at].entity);
                    }
                }
            } else {
                assert(at != i);
                assert(middle[at] == start[at]);
                if waits_again(queue, k) {
                    let other = choose|other: int|
                        0 <= other < queue.len() && other != k && #[trigger] queue[other]
                            == queue[k];
                    assert(other < rest.len());
                    assert(line[other + 1] == line[k + 1]);
                    assert(waits_again(line, k + 1));
                }
            }
        }
    }
}

/// Gives the entities in line their turns, first in line first, until nobody
/// waits any more. An entity with energy left after its turn goes to the back
/// of the line, so each gets as many turns as its energy pays for.
pub fn recusiverly_fire_action(
    world: &mut World,
    map: &WorldMap,
    notices: &mut Vec<Notice>,
    entities: &mut VecDeque<Entity>,
)
    requires
        old(world).wf(),
        map.wf(),
        ready(old(world)@, old(entities)@),
    ensures
        final(world).wf(),
        final(world).names_given() == old(world).names_given(),
        final(entities)@.len() == 0,
        drains(
            TurnState { w: old(world)@, queue: old(entities)@, notices: old(notices)@ },
            *map,
            TurnState { w: final(world)@, queue: final(entities)@, notices: final(notices)@ },
        ),
{
    let ghost start = TurnState { w: world@, queue: entities@, notices: notices@ };
    let ghost mut trace: Seq<TurnState> = seq![start];
    while entities.len() > 0
        invariant
            world.wf(),
            world.names_given() == old(world).names_given(),
            map.wf(),
            ready(world@, entities@),
            is_run(trace, *map),
            trace[0] == start,
            trace[trace.len() - 1] == (TurnState {
                w: world@,
                queue: entities@,
                notices: notices@,
            }),
        decreases total_burden(world@), entities@.len(),
    {
        let ghost before = TurnState { w: world@, queue: entities@, notices: notices@ };
        fire_next_action(world, map, notices, entities);
        proof {
            let after = TurnState { w: world@, queue: entities@, notices: notices@ };
            let longer = trace.push(after);
            assert forall|i: int| 0 <= i < longer.len() - 1 implies is_turn(
                #[trigger] longer[i],
                *map,
                longer[i + 1],
            ) by {
                if i < trace.len() - 1 {
                    assert(is_turn(trace[i], *map, trace[i + 1]));
                } else {
                    assert(longer[i] == before && longer[i + 1] == after);
                }
            }
            trace = longer;
        }
    }
    proof {
        assert(is_run(trace, *map));
    }
}


/// Each entity that takes turns and may come to decide on an action by
/// itself has a transform.
pub open spec fn all_placed(w: Seq<EntityView>) -> bool {
    forall|i: int|
        0 <= i < w.len() && takes_turns(#[trigger] w[i]) && may_decide(w[i])
            ==> w[i].transform.is_some()
}

/// Opens a scheduling pass: each entity that takes turns gains its speed in
/// energy.
pub fn generate_energy(world: &mut World)
    requires
        old(world).wf(),
    ensures
        final(world).wf(),
        final(world).names_given() == old(world).names_given(),
        final(world)@ == regenerated(old(world)@),
{
    let ghost before = world@;
    let mut i: usize = 0;
    while i < world.len()
        invariant
            world.wf(),
            world.names_given() == old(world).names_given(),
            i <= world@.len(),
            world@.len() == before.len(),
            forall|k: int| 0 <= k < i ==> #[trigger] world@[k] == energized(before[k]),
            forall|k: int| i <= k < before.len() ==> #[trigger] world@[k] == before[k],
        decreases world@.len() - i,
    {
        if world.is_actor(i) {
            match world.physics(i) {
                Some(physics) => {
                    let mut physics = physics;
                    physics.generate_energy();
                    world.set_physics(i, physics);
                },
                None => {},
            }
        }
        i += 1;
    }
    proof {
        assert(world@ =~= regenerated(before));
    }
}

/// The entity at the place `origin` is among the first `limit`, bears the
/// name `name`, takes turns and has the speed `speed`.
spec fn listed(w: Seq<EntityView>, limit: int, origin: int, name: Entity, speed: u32) -> bool {
    &&& 0 <= origin < limit
    &&& origin < w.len()
    &&& w[origin].entity == name
    &&& takes_turns(w[origin])
    &&& speed == w[origin].physics.unwrap().speed
}

/// The entities that take turns, the faster before the slower, and of two
/// that are as fast the one that comes first in the world before the other.
pub fn turn_order(world: &World) -> (queue: VecDeque<Entity>)
    requires
        world.wf(),
    ensures
        is_turn_order(world@, queue@),
{
    let ghost w = world@;
    proof {
        world.lemma_distinct();
    }
    let mut names: Vec<Entity> = Vec::new();
    let mut speeds: Vec<u32> = Vec::new();
    let ghost mut origins: Seq<int> = Seq::empty();
    let mut i: usize = 0;
    while i < world.len()
        invariant
            w == world@,
            distinct_ids(w),
            i <= w.len(),
            names.len() == speeds.len(),
            names.len() == origins.len(),
            forall|k: int|
                0 <= k < names.len() ==> listed(w, i as int, #[trigger] origins[k], names[k], speeds[k]),
            forall|j: int|
                0 <= j < i && takes_turns(#[trigger] w[j]) ==> names@.contains(w[j].entity),
            forall|a: int, b: int|
                0 <= a < b < speeds.len() ==> #[trigger] speeds[a] >= #[trigger] speeds[b],
            forall|a: int, b: int|
                0 <= a < b < origins.len() && speeds[a] == speeds[b] ==> #[trigger] origins[a]
                    < #[trigger] origins[b],
        decreases w.len() - i,
    {
        let physics = world.physics(i);
        if world.is_actor(i) && physics.is_some() {
            let speed = physics.unwrap().speed;
            let e = world.entity(i);
            let mut at: usize = 0;
            while at < speeds.len() && speeds[at] >= speed
                invariant
                    at <= speeds.len(),
                    forall|a: int| 0 <= a < at ==> #[trigger] speeds[a] >= speed,
                decreases speeds.len() - at,
            {
                at += 1;
            }
            let ghost old_names = names@;
            let ghost old_speeds = speeds@;
            let ghost old_origins = origins;
            names.insert(at, e);
            speeds.insert(at, speed);
            proof {
                origins = old_origins.insert(at as int, i as int);
                assert forall|k: int| 0 <= k < names.len() implies listed(
                    w,
                    i + 1,
                    #[trigger] origins[k],
                    names[k],
                    speeds[k],
                ) by {
                    if k != at {
                        let o = if k < at { k } else { k - 1 };
                        assert(names[k] == old_names[o] && speeds[k] == old_speeds[o] && origins[k]
                            == old_origins[o]);
                        assert(listed(w, i as int, old_origins[o], old_names[o], old_speeds[o]));
                    }
                }
                assert forall|j: int| 0 <= j < i + 1 && takes_turns(#[trigger] w[j]) implies names@.contains(
                    w[j].entity,
                ) by {
                    if j == i {
                        assert(names@[at as int] == e);
                    } else {
                        assert(old_names.contains(w[j].entity));
                        let k = choose|k: int| 0 <= k < old_names.len() && old_names[k] == w[j].entity;
                        let n = if k < at { k } else { k + 1 };
                        assert(names@[n] == old_names[k]);
                    }
                }
                assert forall|a: int, b: int| 0 <= a < b < speeds.len() implies #[trigger] speeds[a]
                    >= #[trigger] speeds[b] by {
                    let oa = if a < at { a } else { a - 1 };
                    let ob = if b < at { b } else { b - 1 };
                    if a != at && b != at {
                        assert(speeds[a] == old_speeds[oa] && speeds[b] == old_speeds[ob]);
                        assert(old_speeds[oa] >= old_speeds[ob]);
                    } else if a == at {
                        assert(speeds[b] == old_speeds[ob]);
                        if at < old_speeds.len() {
                            assert(old_speeds[at as int] >= old_speeds[ob]);
                        }
                    } else {
                        assert(speeds[a] == old_speeds[oa]);
                    }
                }
                assert forall|a: int, b: int|
                    0 <= a < b < origins.len() && speeds[a] == speeds[b] implies #[trigger] origins[a]
                    < #[trigger] origins[b] by {
                    let oa = if a < at { a } else { a - 1 };
                    let ob = if b < at { b } else { b - 1 };
                    if a != at && b != at {
                        assert(speeds[a] == old_speeds[oa] && speeds[b] == old_speeds[ob]);
                        assert(origins[a] == old_origins[oa] && origins[b] == old_origins[ob]);
                        assert(old_origins[oa] < old_origins[ob]);
                    } else if a == at {
                        assert(speeds[b] == old_speeds[ob]);
                        if at < old_speeds.len() {
                            assert(old_speeds[at as int] >= old_speeds[ob]);
                        }
                    } else {
                        assert(origins[a] == old_origins[oa]);
                        assert(listed(w, i as int, old_origins[oa], old_names[oa], old_speeds[oa]));
                    }
                }
            }
        } else {
            proof {
                assert forall|k: int| 0 <= k < names.len() implies listed(
                    w,
                    i + 1,
                    #[trigger] origins[k],
                    names[k],
                    speeds[k],
                ) by {
                    assert(listed(w, i as int, origins[k], names[k], speeds[k]));
                }
            }
        }
        i += 1;
    }
    let mut queue: VecDeque<Entity> = VecDeque::new();
    let mut k: usize = 0;
    while k < names.len()
        invariant
            k <= names.len(),
            queue@ == names@.take(k as int),
        decreases names.len() - k,
    {
        queue.push_back(names[k]);
        proof {
            assert(names@.take(k as int).push(names@[k as int]) =~= names@.take(k + 1));
        }
        k += 1;
    }
    proof {
        assert(names@.take(names@.len() as int) =~= names@);
        assert forall|k: int| 0 <= k < names.len() implies has_entity(w, #[trigger] names[k])
            && index_of(w, names[k]) == origins[k] && takes_turns(w[index_of(w, names[k])])
            && speed_of(w, names[k]) == speeds[k] by {
            assert(listed(w, w.len() as int, origins[k], names[k], speeds[k]));
            lemma_alter_at(w, names[k], origins[k], |d: EntityView| d);
        }
        assert forall|a: int, b: int| 0 <= a < b < names.len() implies #[trigger] names[a]
            != #[trigger] names[b] by {
            assert(has_entity(w, names[a]) && has_entity(w, names[b]));
            if speeds[a] == speeds[b] {
                assert(origins[a] < origins[b]);
            }
        }
        assert forall|e: Entity| #[trigger] names@.contains(e) <==> has_entity(w, e) && takes_turns(
            w[index_of(w, e)],
        ) by {
            if names@.contains(e) {
                let k = choose|k: int| 0 <= k < names.len() && names[k] == e;
                assert(has_entity(w, names[k]));
            }
            if has_entity(w, e) && takes_turns(w[index_of(w, e)]) {
                assert(takes_turns(w[index_of(w, e)]));
            }
        }
        assert forall|a: int, b: int| 0 <= a < b < names.len() implies speed_of(
            w,
            #[trigger] names[a],
        ) >= speed_of(w, #[trigger] names[b]) by {
            assert(has_entity(w, names[a]) && has_entity(w, names[b]));
            assert(speeds[a] >= speeds[b]);
        }
        assert forall|a: int, b: int|
            0 <= a < b < names.len() && speed_of(w, #[trigger] names[a]) == speed_of(
                w,
                #[trigger] names[b],
            ) implies index_of(w, names[a]) < index_of(w, names[b]) by {
            assert(has_entity(w, names[a]) && has_entity(w, names[b]));
            assert(origins[a] < origins[b]);
        }
    }
    queue
}

/// One scheduling pass. Each entity that takes turns gains its speed in
/// energy; then the entities take their turns, the faster first, each as often
/// as its energy pays for. An entity that may come to decide on an action by
/// itself, with the energy that it has gained, must have a transform.
pub fn run_actor_actions(world: &mut World, map: &WorldMap, notices: &mut Vec<Notice>)
    requires
        old(world).wf(),
        map.wf(),
        all_placed(regenerated(old(world)@)),
    ensures
        final(world).wf(),
        final(world).names_given() == old(world).names_given(),
        exists|queue: Seq<Entity>| #[trigger]
            is_turn_order(regenerated(old(world)@), queue) && drains(
                TurnState { w: regenerated(old(world)@), queue, notices: old(notices)@ },
                *map,
                TurnState { w: final(world)@, queue: Seq::empty(), notices: final(notices)@ },
            ),
{
    generate_energy(world);
    let mut entities = turn_order(world);
    let ghost queue = entities@;
    let ghost w = world@;
    proof {
        assert forall|k: int| 0 <= k < queue.len() implies #[trigger] can_take_turn(w, queue, k) by {
            assert(queue.contains(queue[k]));
            let i = index_of(w, queue[k]);
            assert(takes_turns(w[i]));
            if waits_again(queue, k) {
                let j = choose|j: int| 0 <= j < queue.len() && j != k && #[trigger] queue[j] == queue[k];
                assert(queue[j] != queue[k]);
            }
        }
    }
    recusiverly_fire_action(world, map, notices, &mut entities);
    proof {
        assert(entities@ =~= Seq::<Entity>::empty());
        assert(is_turn_order(regenerated(old(world)@), queue));
    }
}

/// The entity has vitals and no health left.
pub open spec fn is_dead(d: EntityView) -> bool {
    d.physics matches Some(p) && p.health == 0
}

/// The entities that are not dead, in their order.
pub open spec fn survivors(w: Seq<EntityView>) -> Seq<EntityView>
    decreases w.len(),
{
    if w.len() == 0 {
        Seq::empty()
    } else if is_dead(w.last()) {
        survivors(w.drop_last())
    } else {
        survivors(w.drop_last()).push(w.last())
    }
}

/// Takes the dead out of the world. The others keep their order.
pub fn cleanup_dead_entities(world: &mut World)
    requires
        old(world).wf(),
    ensures
        final(world).wf(),
        final(world).names_given() == old(world).names_given(),
        final(world)@ == survivors(old(world)@),
{
    let ghost before = world@;
    let ghost mut seen: int = 0;
    let mut k: usize = 0;
    proof {
        assert(before.take(0) =~= Seq::<EntityView>::empty());
        assert(survivors(before.take(0)) + before.skip(0) =~= before);
    }
    while k < world.len()
        invariant
            world.wf(),
            world.names_given() == old(world).names_given(),
            0 <= seen <= before.len(),
            k == survivors(before.take(seen)).len(),
            world@ == survivors(before.take(seen)) + before.skip(seen),
        decreases before.len() - seen,
    {
        proof {
            assert(world@[k as int] == before.skip(seen)[0]);
            assert(seen < before.len());
            assert(before.take(seen + 1).drop_last() =~= before.take(seen));
            assert(before.take(seen + 1).last() == before[seen]);
        }
        let dead = match world.physics(k) {
            Some(physics) => !physics.is_alive(),
            None => false,
        };
        if dead {
            world.remove(k);
            proof {
                assert(world@ =~= survivors(before.take(seen + 1)) + before.skip(seen + 1));
            }
        } else {
            proof {
                assert(world@ =~= survivors(before.take(seen + 1)) + before.skip(seen + 1));
            }
            k += 1;
        }
        proof {
            seen = seen + 1;
        }
    }
    proof {
        assert(seen == before.len()) by {
            if seen < before.len() {
                assert((survivors(before.take(seen)) + before.skip(seen)).len() > k);
            }
        }
        assert(before.take(seen) =~= before);
        assert(survivors(before) + before.skip(seen) =~= survivors(before));
    }
}


/// An entity whose energy is just the cost of its action pays, acts, and is
/// left without energy and out of the line: it acts once, not twice.
pub proof fn lemma_exact_energy_pays_once(s: TurnState, map: WorldMap, action: Action, i: int)
    requires
        distinct_ids(s.w),
        s.queue.len() > 0,
        0 <= i < s.w.len(),
        s.w[i].entity == s.queue[0],
        s.w[i].physics matches Some(p) && p.energy == action.cost,
    ensures
        ({
            let after = after_turn(s, map, action);
            after.queue == s.queue.subrange(1, s.queue.len() as int) && after.w[i].physics.unwrap().energy
                == 0
        }),
{
    let e = s.queue[0];
    let cleared = alter(s.w, e, |d: EntityView| with_action(d, None));
    let debited = alter(cleared, e, |d: EntityView| paid(d, action.cost));
    lemma_alter_at(s.w, e, i, |d: EntityView| with_action(d, None));
    lemma_resolve_keeps_turn_data(debited, map, e, action.event);
    assert(same_turn_data(debited[i], resolve(debited, map, e, action.event)[i]));
}


/// In a turn only the entity whose turn it is spends energy, and it spends
/// the cost of its action if its energy covers it, and nothing if not.
pub proof fn lemma_turn_spends_only_the_cost(
    s: TurnState,
    map: WorldMap,
    action: Action,
    i: int,
    j: int,
)
    requires
        distinct_ids(s.w),
        s.queue.len() > 0,
        0 <= i < s.w.len(),
        s.w[i].entity == s.queue[0],
        s.w[i].physics.is_some(),
        0 <= j < s.w.len(),
        s.w[j].physics.is_some(),
    ensures
        ({
            let after = after_turn(s, map, action).w;
            let before = s.w[j].physics.unwrap();
            &&& after.len() == s.w.len()
            &&& after[j].physics.is_some()
            &&& after[j].physics.unwrap().speed == before.speed
            &&& after[j].physics.unwrap().energy == (if j == i && action.cost <= before.energy {
                (before.energy - action.cost) as u64
            } else {
                before.energy
            })
        }),
{
    let e = s.queue[0];
    let cleared = alter(s.w, e, |d: EntityView| with_action(d, None));
    let debited = alter(cleared, e, |d: EntityView| paid(d, action.cost));
    lemma_alter_at(s.w, e, i, |d: EntityView| with_action(d, None));
    assert(cleared[i].entity == e);
    assert(distinct_ids(cleared)) by {
        assert forall|a: int, b: int| 0 <= a < b < cleared.len() implies (#[trigger] cleared[a]).entity
            != (#[trigger] cleared[b]).entity by {
            assert(s.w[a].entity != s.w[b].entity);
        }
    }
    lemma_alter_at(cleared, e, i, |d: EntityView| paid(d, action.cost));
    lemma_resolve_keeps_turn_data(debited, map, e, action.event);
    assert(same_turn_data(debited[j], resolve(debited, map, e, action.event)[j]));
}

/// After a turn the line is what it was without its first entity, with that
/// entity at the back if it has come back for more.
proof fn lemma_line_after_turn(s: TurnState, map: WorldMap, next: TurnState)
    requires
        is_turn(s, map, next),
    ensures
        next.queue == s.queue.subrange(1, s.queue.len() as int) || next.queue == s.queue.subrange(
            1,
            s.queue.len() as int,
        ).push(s.queue[0]),
{
    reveal(is_turn);
    let action = choose|action: Action| #[trigger]
        may_act(s.w, map, s.queue[0], action) && next == after_turn(s, map, action);
    assert(next.queue == after_turn(s, map, action).queue);
}

/// After `k` turns of a run, the entities of the line that the run began with
/// still wait in their order, but for the first `k`, which have had their
/// turn; behind them wait those that have come back for more.
proof fn lemma_line_after(trace: Seq<TurnState>, map: WorldMap, k: int) -> (back: Seq<Entity>)
    requires
        is_run(trace, map),
        0 <= k <= trace[0].queue.len(),
        k < trace.len(),
    ensures
        trace[k].queue == trace[0].queue.skip(k) + back,
    decreases k,
{
    let line = trace[0].queue;
    if k == 0 {
        assert(line.skip(0) + Seq::<Entity>::empty() =~= line);
        Seq::empty()
    } else {
        let before = lemma_line_after(trace, map, k - 1);
        let queue = trace[k - 1].queue;
        assert(is_turn(trace[k - 1], map, trace[k - 1 + 1]));
        lemma_line_after_turn(trace[k - 1], map, trace[k]);
        let rest = queue.subrange(1, queue.len() as int);
        assert(queue[0] == line[k - 1]);
        assert(rest =~= line.skip(k) + before);
        if trace[k].queue == rest {
            before
        } else {
            assert(rest.push(queue[0]) =~= line.skip(k) + before.push(queue[0]));
            before.push(queue[0])
        }
    }
}

/// In a pass that runs until nobody waits, the entities of the line that it
/// began with take their first turns in the order of the line: the turn
/// number `k` is that of the entity at `k` in the line.
pub proof fn lemma_turns_follow_the_line(trace: Seq<TurnState>, map: WorldMap, k: int)
    requires
        is_run(trace, map),
        trace[trace.len() - 1].queue.len() == 0,
        0 <= k < trace[0].queue.len(),
    ensures
        k < trace.len() - 1,
        trace[k].queue.len() > 0,
        trace[k].queue[0] == trace[0].queue[k],
{
    if trace.len() - 1 <= k {
        let back = lemma_line_after(trace, map, trace.len() - 1);
        assert((trace[0].queue.skip(trace.len() - 1) + back).len() > 0);
    }
    let back = lemma_line_after(trace, map, k);
    assert((trace[0].queue.skip(k) + back)[0] == trace[0].queue[k]);
}

/// In the line of a pass, an entity stands before each slower one.
pub proof fn lemma_faster_stands_first(
    w: Seq<EntityView>,
    queue: Seq<Entity>,
    i: int,
    j: int,
)
    requires
        is_turn_order(w, queue),
        0 <= i < queue.len(),
        0 <= j < queue.len(),
        speed_of(w, queue[i]) > speed_of(w, queue[j]),
    ensures
        i < j,
{
    if j < i {
        assert(speed_of(w, queue[j]) >= speed_of(w, queue[i]));
    }
}

} // verus!
