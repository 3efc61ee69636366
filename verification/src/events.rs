use vstd::prelude::*;
use vstd::string::*;
use crate::components::{
    health_after, item_name, holds_enemy, idle_action, stepped, Entity, Item, Physics, Relationship,
    Relationships, Transform, DECIDED_ACTION_COST,
};
use crate::map::WorldMap;
use crate::math::{distance_squared, manhattan, Vector2Int};
use crate::pathfinding::{a_star, route};
use crate::queries::{get_entity_grid_position, grid_position_of, is_placed};
use crate::systems::create_bad_relationship;
use crate::tiles::Tile;
use crate::world::{
    alter, has_entity, index_of, lemma_alter_absent, lemma_alter_at,
    lemma_select_contains, lemma_select_step, select, with_enemy, EntityView, World,
};

verus! {

/// A blow: who dealt it, if that is known, and its force.
#[derive(Clone, Copy, Debug, PartialEq, Eq, Structural, Hash)]
pub struct DamageAction {
    pub attacker: Option<Entity>,
    pub amount: u16,
}

impl Default for DamageAction {
    fn default() -> (r: Self)
        ensures
            r == (DamageAction { attacker: None, amount: 0 }),
    {
        DamageAction { attacker: None, amount: 0 }
    }
}

#[derive(Clone, Copy, Debug, PartialEq, Eq, Structural, Hash)]
pub struct AttackAction {
    pub amount: u16,
    pub target: Entity,
}

#[derive(Clone, Copy, Debug, PartialEq, Eq, Structural)]
pub struct ThrowAction {
    pub item: Item,
    pub target: Entity,
}

/// What an entity does, or what happens to it.
#[derive(Clone, Copy, Debug, PartialEq, Eq, Structural)]
pub enum Events {
    TakeDamage(DamageAction),
    MoveTo(Vector2Int),
    MoveDirection(Vector2Int),
    Attack(AttackAction),
    ThrowItem(ThrowAction),
    Empty,
}

impl Default for Events {
    fn default() -> (r: Self)
        ensures
            r == Events::Empty,
    {
        Events::Empty
    }
}

/// An event with the energy that it costs the entity that acts.
#[derive(Clone, Copy, Debug, PartialEq, Eq, Structural)]
pub struct Action {
    pub cost: u32,
    pub event: Events,
}

impl Default for Action {
    fn default() -> (r: Self)
        ensures
            r == (Action { cost: 0, event: Events::Empty }),
    {
        Action { cost: 0, event: Events::Empty }
    }
}


/// What the resolver tells the log.
#[derive(Clone, Copy, Debug, PartialEq, Eq, Structural)]
pub enum Notice {
    /// The player headed for a cell that cannot be walked on.
    PathBlocked,
    /// An item was thrown at an entity.
    ItemThrown { item: Item, target: Entity },
}

/// An entity after a blow: an invulnerable one takes none of its force, vitals
/// lose what is left of it, and the ledger turns against a known attacker.
pub open spec fn damaged(d: EntityView, blow: DamageAction) -> EntityView {
    let amount = if d.invulnerable {
        0u16
    } else {
        blow.amount
    };
    let hurt = EntityView {
        physics: match d.physics {
            Some(p) => Some(Physics { health: health_after(p.health, amount), ..p }),
            None => None,
        },
        ..d
    };
    match blow.attacker {
        Some(attacker) => with_enemy(hurt, attacker),
        None => hurt,
    }
}

/// An entity after it has headed for `dest`: it stands there if the cell can be
/// walked on, and where it stood if not.
pub open spec fn moved_to(d: EntityView, map: WorldMap, dest: Vector2Int) -> EntityView {
    match d.transform {
        Some(t) => EntityView {
            transform: Some(
                Transform::at(
                    if map.walkable_at(dest) {
                        dest
                    } else {
                        t.grid_position
                    },
                ),
            ),
            ..d
        },
        None => d,
    }
}

/// An entity after a step of `delta`, whatever lies there.
pub open spec fn nudged(d: EntityView, delta: Vector2Int) -> EntityView {
    match d.transform {
        Some(t) => EntityView {
            transform: Some(Transform::at(stepped(t.grid_position, delta))),
            ..d
        },
        None => d,
    }
}

/// The entities after `event` has been resolved for the entity `ent`.
pub open spec fn resolve(w: Seq<EntityView>, map: WorldMap, ent: Entity, event: Events) -> Seq<
    EntityView,
> {
    match event {
        Events::TakeDamage(blow) => alter(w, ent, |d: EntityView| damaged(d, blow)),
        Events::MoveTo(dest) => alter(w, ent, |d: EntityView| moved_to(d, map, dest)),
        Events::MoveDirection(delta) => alter(w, ent, |d: EntityView| nudged(d, delta)),
        Events::Attack(attack) => alter(
            w,
            attack.target,
            |d: EntityView|
                damaged(d, DamageAction { attacker: Some(ent), amount: attack.amount }),
        ),
        Events::ThrowItem(throw) => alter(w, throw.target, |d: EntityView| with_enemy(d, ent)),
        Events::Empty => w,
    }
}

/// What resolving `event` for the entity `ent` tells the log: that the way is
/// blocked, where the player heads for a cell that cannot be walked on, and
/// each throw of an item.
pub open spec fn notices_of(w: Seq<EntityView>, map: WorldMap, ent: Entity, event: Events) -> Seq<
    Notice,
> {
    match event {
        Events::MoveTo(dest) => if has_entity(w, ent) && w[index_of(w, ent)].transform.is_some()
            && w[index_of(w, ent)].player && !map.walkable_at(dest) {
            seq![Notice::PathBlocked]
        } else {
            Seq::empty()
        },
        Events::ThrowItem(throw) => seq![Notice::ItemThrown { item: throw.item, target: throw.target }],
        _ => Seq::empty(),
    }
}

/// The event as the resolver leaves it: a blow at an invulnerable entity has
/// lost its force.
pub open spec fn spent_event(w: Seq<EntityView>, ent: Entity, event: Events) -> Events {
    match event {
        Events::TakeDamage(blow) => if has_entity(w, ent) && w[index_of(w, ent)].invulnerable {
            Events::TakeDamage(DamageAction { amount: 0, ..blow })
        } else {
            event
        },
        _ => event,
    }
}

/// Deals a blow to the entity `ent`.
pub fn event_take_damage(world: &mut World, ent: Entity, action: &mut DamageAction)
    requires
        old(world).wf(),
    ensures
        final(world).wf(),
        final(world).names_given() == old(world).names_given(),
        final(world)@ == alter(old(world)@, ent, |d: EntityView| damaged(d, *old(action))),
        *final(action) == (if has_entity(old(world)@, ent) && old(world)@[index_of(
            old(world)@,
            ent,
        )].invulnerable {
            DamageAction { amount: 0, ..*old(action) }
        } else {
            *old(action)
        }),
{
    let ghost before = world@;
    let ghost blow = *action;
    proof {
        world.lemma_distinct();
    }
    match world.find(ent) {
        Some(i) => {
            proof {
                lemma_alter_at(before, ent, i as int, |d: EntityView| damaged(d, blow));
            }
            if world.is_invulnerable(i) {
                action.amount = 0;
            }
            match world.physics(i) {
                Some(physics) => {
                    let mut physics = physics;
                    physics.take_damage(action);
                    world.set_physics(i, physics);
                },
                None => {},
            }
            let ghost hurt = world@;
            if let Some(attacker) = action.attacker {
                proof {
                    world.lemma_distinct();
                    lemma_alter_at(hurt, ent, i as int, |d: EntityView| with_enemy(d, attacker));
                }
                create_bad_relationship(world, attacker, ent);
            }
            proof {
                assert(world@ =~= before.update(i as int, damaged(before[i as int], blow)));
            }
        },
        None => {
            proof {
                lemma_alter_absent(before, ent, |d: EntityView| damaged(d, blow));
            }
            if let Some(attacker) = action.attacker {
                proof {
                    lemma_alter_absent(before, ent, |d: EntityView| with_enemy(d, attacker));
                }
                create_bad_relationship(world, attacker, ent);
            }
        },
    }
}

/// Has the entity `ent` head for the cell `action`.
pub fn event_move_to(
    world: &mut World,
    map: &WorldMap,
    notices: &mut Vec<Notice>,
    ent: Entity,
    action: Vector2Int,
)
    requires
        old(world).wf(),
    ensures
        final(world).wf(),
        final(world).names_given() == old(world).names_given(),
        final(world)@ == alter(old(world)@, ent, |d: EntityView| moved_to(d, *map, action)),
        final(notices)@ == old(notices)@ + notices_of(old(world)@, *map, ent, Events::MoveTo(action)),
{
    let ghost before = world@;
    proof {
        world.lemma_distinct();
        assert(old(notices)@ + Seq::<Notice>::empty() == old(notices)@);
        assert(old(notices)@ + seq![Notice::PathBlocked] == old(notices)@.push(Notice::PathBlocked));
    }
    match world.find(ent) {
        Some(i) => {
            proof {
                lemma_alter_at(before, ent, i as int, |d: EntityView| moved_to(d, *map, action));
            }
            match world.transform(i) {
                Some(transform) => {
                    let mut transform = transform;
                    let mut dest = action;
                    if !map.is_tile_walkable(dest) {
                        dest = transform.grid_position;
                        if world.is_player(i) {
                            notices.push(Notice::PathBlocked);
                        }
                    }
                    transform.move_pos(dest);
                    world.set_transform(i, transform);
                },
                None => {
                    proof {
                        assert(world@ =~= before.update(i as int, before[i as int]));
                    }
                },
            }
        },
        None => {
            proof {
                lemma_alter_absent(before, ent, |d: EntityView| moved_to(d, *map, action));
            }
        },
    }
}

/// Moves the entity `ent` by `action`, whatever lies there.
pub fn event_move_direction(world: &mut World, ent: Entity, action: &Vector2Int)
    requires
        old(world).wf(),
    ensures
        final(world).wf(),
        final(world).names_given() == old(world).names_given(),
        final(world)@ == alter(old(world)@, ent, |d: EntityView| nudged(d, *action)),
{
    let ghost before = world@;
    proof {
        world.lemma_distinct();
    }
    match world.find(ent) {
        Some(i) => {
            proof {
                lemma_alter_at(before, ent, i as int, |d: EntityView| nudged(d, *action));
            }
            match world.transform(i) {
                Some(transform) => {
                    let mut transform = transform;
                    transform.move_direction(*action);
                    world.set_transform(i, transform);
                },
                None => {
                    proof {
                        assert(world@ =~= before.update(i as int, before[i as int]));
                    }
                },
            }
        },
        None => {
            proof {
                lemma_alter_absent(before, ent, |d: EntityView| nudged(d, *action));
            }
        },
    }
}

/// Has the entity `ent` throw an item: the target turns against it, and the
/// log hears of the throw.
pub fn event_throw_item(
    world: &mut World,
    notices: &mut Vec<Notice>,
    ent: Entity,
    action: &ThrowAction,
)
    requires
        old(world).wf(),
    ensures
        final(world).wf(),
        final(world).names_given() == old(world).names_given(),
        final(world)@ == alter(old(world)@, action.target, |d: EntityView| with_enemy(d, ent)),
        final(notices)@ == old(notices)@.push(
            Notice::ItemThrown { item: action.item, target: action.target },
        ),
{
    create_bad_relationship(world, ent, action.target);
    notices.push(Notice::ItemThrown { item: action.item, target: action.target });
}

/// Has the entity `ent` strike its target.
pub fn event_attack(world: &mut World, ent: Entity, action: &AttackAction)
    requires
        old(world).wf(),
    ensures
        final(world).wf(),
        final(world).names_given() == old(world).names_given(),
        final(world)@ == alter(
            old(world)@,
            action.target,
            |d: EntityView| damaged(d, DamageAction { attacker: Some(ent), amount: action.amount }),
        ),
{
    let mut blow = DamageAction { attacker: Some(ent), amount: action.amount };
    event_take_damage(world, action.target, &mut blow);
}

/// Resolves one event for the entity `ent`: the entities change as the event
/// says, and the log hears what it has to hear.
pub fn run_event_system_hecs(
    world: &mut World,
    map: &WorldMap,
    notices: &mut Vec<Notice>,
    ent: Entity,
    event: &mut Events,
)
    requires
        old(world).wf(),
    ensures
        final(world).wf(),
        final(world).names_given() == old(world).names_given(),
        final(world)@ == resolve(old(world)@, *map, ent, *old(event)),
        final(notices)@ == old(notices)@ + notices_of(old(world)@, *map, ent, *old(event)),
        *final(event) == spent_event(old(world)@, ent, *old(event)),
{
    proof {
        assert(old(notices)@ + Seq::<Notice>::empty() == old(notices)@);
    }
    match event {
        Events::TakeDamage(action) => {
            event_take_damage(world, ent, action);
        },
        Events::MoveTo(action) => {
            event_move_to(world, map, notices, ent, *action);
        },
        Events::MoveDirection(action) => {
            event_move_direction(world, ent, action);
        },
        Events::ThrowItem(action) => {
            proof {
                let notice = Notice::ItemThrown { item: action.item, target: action.target };
                assert(old(notices)@ + seq![notice] == old(notices)@.push(notice));
            }
            event_throw_item(world, notices, ent, action);
        },
        Events::Attack(action) => {
            event_attack(world, ent, action);
        },
        Events::Empty => {},
    }
}


/// How far an entity looks for enemies, as a straight line in cells.
pub const SIGHT_RANGE: u32 = 10;

/// The force of the blow that an entity deals by its own decision.
pub const DECIDED_ATTACK_AMOUNT: u16 = 1;

/// The entity has a transform no further than `reach` from `centre`, as a
/// straight line.
pub open spec fn near(d: EntityView, centre: Vector2Int, reach: int) -> bool {
    d.transform matches Some(t) && distance_squared(t.grid_position, centre) <= reach * reach
}

/// The first of the candidates that the ledger holds as an enemy.
pub open spec fn first_enemy(ledger: Map<Entity, Relationship>, candidates: Seq<Entity>) -> Option<
    Entity,
>
    decreases candidates.len(),
{
    if candidates.len() == 0 {
        None
    } else if holds_enemy(ledger, candidates[0]) {
        Some(candidates[0])
    } else {
        first_enemy(ledger, candidates.drop_first())
    }
}

/// The entity exists, has a transform and is an actor.
pub open spec fn can_decide(w: Seq<EntityView>, ent: Entity) -> bool {
    is_placed(w, ent) && w[index_of(w, ent)].actor.is_some()
}

/// The enemy that the entity `ent` goes for: the first entity in sight that
/// its ledger holds as an enemy.
pub open spec fn ai_target(w: Seq<EntityView>, ent: Entity) -> Option<Entity> {
    first_enemy(
        w[index_of(w, ent)].actor.unwrap().relationships,
        select(w, |d: EntityView| near(d, grid_position_of(w, ent), SIGHT_RANGE as int)),
    )
}

/// The action is one that an idle entity on `position` may take.
pub open spec fn is_idle_action(position: Vector2Int, action: Action) -> bool {
    exists|x: int, y: int| -1 <= x <= 1 && -1 <= y <= 1 && action == idle_action(position, x, y)
}

/// The step that a route gives: its cell before the last, the last being
/// where one stands. A route of one cell gives none.
pub open spec fn step_of(path: Seq<Vector2Int>) -> Option<Vector2Int> {
    if path.len() >= 2 {
        Some(path[path.len() - 2])
    } else {
        None
    }
}

/// The step that takes an entity on `position` toward `target_position` over
/// `tiles`: the first step of the route that a search finds, if it finds one
/// of more than one cell.
pub open spec fn step_toward(
    tiles: Map<Vector2Int, Tile>,
    position: Vector2Int,
    target_position: Vector2Int,
) -> Option<Vector2Int> {
    match route(tiles, position, target_position) {
        Some(path) => step_of(path),
        None => None,
    }
}

/// The action is one that the entity `ent` may decide on by itself: a blow
/// at an enemy next to it; a step toward an enemy in sight, over the tiles of
/// the current chunk; and what an idle entity does where it has no enemy in
/// sight or finds no step toward it.
pub open spec fn ai_may_choose(w: Seq<EntityView>, map: WorldMap, ent: Entity, action: Action) -> bool {
    let position = grid_position_of(w, ent);
    let tiles = map.chunks()[map.current()].tiles@;
    match ai_target(w, ent) {
        Some(target) => if manhattan(grid_position_of(w, target), position) > 1 {
            match step_toward(tiles, position, grid_position_of(w, target)) {
                Some(step) => action == (Action {
                    cost: DECIDED_ACTION_COST,
                    event: Events::MoveTo(step),
                }),
                None => is_idle_action(position, action),
            }
        } else {
            action == (Action {
                cost: DECIDED_ACTION_COST,
                event: Events::Attack(AttackAction { amount: DECIDED_ATTACK_AMOUNT, target }),
            })
        },
        None => is_idle_action(position, action),
    }
}

/// The entities that stand no further than `max_distance` from the entity
/// `ent`, as a straight line, in the order of the world. The entity itself is
/// among them.
pub fn find_entities_in_distance(world: &World, ent: Entity, max_distance: u32) -> (r: Vec<Entity>)
    requires
        world.wf(),
        is_placed(world@, ent),
    ensures
        r@ == select(
            world@,
            |d: EntityView| near(d, grid_position_of(world@, ent), max_distance as int),
        ),
{
    let centre = get_entity_grid_position(world, ent);
    assert(0 <= (max_distance as int) * (max_distance as int) <= 0xFFFF_FFFF * 0xFFFF_FFFF)
        by (nonlinear_arith)
        requires
            0 <= max_distance <= 0xFFFF_FFFF,
    ;
    let limit: u128 = (max_distance as u128) * (max_distance as u128);
    let ghost wanted = |d: EntityView| near(d, grid_position_of(world@, ent), max_distance as int);
    let mut found: Vec<Entity> = Vec::new();
    let mut i: usize = 0;
    proof {
        assert(world@.take(0) =~= Seq::<EntityView>::empty());
    }
    while i < world.len()
        invariant
            i <= world@.len(),
            centre == grid_position_of(world@, ent),
            limit == (max_distance as int) * (max_distance as int),
            wanted == |d: EntityView|
                near(d, grid_position_of(world@, ent), max_distance as int),
            found@ == select(world@.take(i as int), wanted),
        decreases world@.len() - i,
    {
        proof {
            lemma_select_step(world@, wanted, i as int);
        }
        match world.transform(i) {
            Some(transform) => {
                if transform.grid_position.distance_squared(centre) <= limit {
                    found.push(world.entity(i));
                }
            },
            None => {},
        }
        i += 1;
    }
    proof {
        assert(world@.take(world@.len() as int) =~= world@);
    }
    found
}

/// The first of the candidates that the ledger holds as an enemy.
pub fn find_first_enemy(ledger: &Relationships, candidates: &Vec<Entity>) -> (r: Option<Entity>)
    ensures
        r == first_enemy(ledger@, candidates@),
        r matches Some(e) ==> candidates@.contains(e),
{
    let mut i: usize = 0;
    proof {
        assert(candidates@.skip(0) =~= candidates@);
    }
    while i < candidates.len()
        invariant
            i <= candidates.len(),
            first_enemy(ledger@, candidates@) == first_enemy(ledger@, candidates@.skip(i as int)),
        decreases candidates.len() - i,
    {
        proof {
            assert(candidates@.skip(i as int).drop_first() =~= candidates@.skip(i + 1));
            assert(candidates@.skip(i as int)[0] == candidates@[i as int]);
        }
        if ledger.is_enemy(candidates[i]) {
            return Some(candidates[i]);
        }
        i += 1;
    }
    proof {
        assert(candidates@.skip(i as int).len() == 0);
    }
    None
}

/// The step to take along a route that leads from a goal back to where one
/// stands: the cell before the last. A route of one cell has none.
pub fn step_from_path(path: &Vec<Vector2Int>) -> (r: Option<Vector2Int>)
    ensures
        r == step_of(path@),
{
    if path.len() >= 2 {
        Some(path[path.len() - 2])
    } else {
        None
    }
}

/// What the entity `ent` does when nothing is queued for it. The entity must
/// exist, have a transform and be an actor.
pub fn get_ai_action(world: &World, map: &WorldMap, ent: Entity) -> (r: Action)
    requires
        world.wf(),
        map.wf(),
        can_decide(world@, ent),
    ensures
        ai_may_choose(world@, *map, ent, r),
{
    let ghost w = world@;
    proof {
        world.lemma_distinct();
    }
    let entities_nearby = find_entities_in_distance(world, ent, SIGHT_RANGE);
    let ent_position = get_entity_grid_position(world, ent);
    let index = match world.find(ent) {
        Some(index) => index,
        None => vstd::pervasive::unreached(),
    };
    proof {
        lemma_alter_at(w, ent, index as int, |d: EntityView| d);
    }
    let actor = match world.actor(index) {
        Some(actor) => actor,
        None => vstd::pervasive::unreached(),
    };
    let target = find_first_enemy(&actor.relationships, &entities_nearby);
    assert(target == ai_target(w, ent));
    if let Some(target) = target {
        proof {
            lemma_select_contains(
                w,
                |d: EntityView| near(d, grid_position_of(w, ent), SIGHT_RANGE as int),
                target,
            );
            let k = choose|k: int|
                0 <= k < w.len() && (#[trigger] w[k]).entity == target && near(
                    w[k],
                    grid_position_of(w, ent),
                    SIGHT_RANGE as int,
                );
            lemma_alter_at(w, target, k, |d: EntityView| d);
        }
        let target_position = get_entity_grid_position(world, target);
        if target_position.distance(ent_position) > 1 {
            let path = a_star(&map.get_current_chunk().tiles, ent_position, target_position);
            if let Some(path) = path {
                if let Some(step) = step_from_path(&path) {
                    return Action { cost: DECIDED_ACTION_COST, event: Events::MoveTo(step) };
                }
            }
        } else {
            return Action {
                cost: DECIDED_ACTION_COST,
                event: Events::Attack(AttackAction { amount: DECIDED_ATTACK_AMOUNT, target }),
            };
        }
    }
    actor.get_action(ent_position)
}


/// The digit that stands for a number below ten.
pub open spec fn digit_text(digit: nat) -> Seq<char> {
    if digit == 0 {
        "0"@
    } else if digit == 1 {
        "1"@
    } else if digit == 2 {
        "2"@
    } else if digit == 3 {
        "3"@
    } else if digit == 4 {
        "4"@
    } else if digit == 5 {
        "5"@
    } else if digit == 6 {
        "6"@
    } else if digit == 7 {
        "7"@
    } else if digit == 8 {
        "8"@
    } else {
        "9"@
    }
}

/// A number written in decimal digits.
pub open spec fn decimal(n: nat) -> Seq<char>
    decreases n,
{
    if n < 10 {
        digit_text(n)
    } else {
        decimal(n / 10) + digit_text(n % 10)
    }
}

/// What a notice says, with the marks that colour parts of it.
pub open spec fn notice_text(notice: Notice) -> Seq<char> {
    match notice {
        Notice::PathBlocked => "That path is blocked"@,
        Notice::ItemThrown { item, target } => "You threw a [BLUE "@ + item_name(item)
            + " ] at [RED "@ + entity_text(target) + "]"@,
    }
}

/// How a message names an entity: the lower half of its number, a `v`, and
/// the upper half, both in decimal digits.
pub open spec fn entity_text(entity: Entity) -> Seq<char> {
    decimal((entity.0 % 0x1_0000_0000) as nat) + "v"@ + decimal((entity.0 / 0x1_0000_0000) as nat)
}

fn digit_str(digit: u64) -> (r: &'static str)
    requires
        digit < 10,
    ensures
        r@ == digit_text(digit as nat),
{
    if digit == 0 {
        "0"
    } else if digit == 1 {
        "1"
    } else if digit == 2 {
        "2"
    } else if digit == 3 {
        "3"
    } else if digit == 4 {
        "4"
    } else if digit == 5 {
        "5"
    } else if digit == 6 {
        "6"
    } else if digit == 7 {
        "7"
    } else if digit == 8 {
        "8"
    } else {
        "9"
    }
}

/// Writes a number in decimal digits behind a text.
pub fn append_decimal(text: &mut String, n: u64)
    ensures
        final(text)@ == old(text)@ + decimal(n as nat),
    decreases n,
{
    if n >= 10 {
        append_decimal(text, n / 10);
    }
    text.append(digit_str(n % 10));
    proof {
        if n >= 10 {
            assert((old(text)@ + decimal((n / 10) as nat)) + digit_text((n % 10) as nat) =~= old(
                text,
            )@ + (decimal((n / 10) as nat) + digit_text((n % 10) as nat)));
        }
    }
}

impl Notice {
    /// What the notice says, with the marks that colour parts of it.
    pub fn message(&self) -> (r: String)
        ensures
            r@ == notice_text(*self),
    {
        match self {
            Notice::PathBlocked => String::from_str("That path is blocked"),
            Notice::ItemThrown { item, target } => {
                let mut text = String::from_str("You threw a [BLUE ");
                text.append(item.name());
                text.append(" ] at [RED ");
                let ghost head = text@;
                append_decimal(&mut text, target.0 % 0x1_0000_0000);
                text.append("v");
                append_decimal(&mut text, target.0 / 0x1_0000_0000);
                proof {
                    assert(text@ =~= head + entity_text(*target));
                }
                text.append("]");
                text
            },
        }
    }
}


/// After a blow by a known attacker, the ledger of a victim that keeps one
/// holds the attacker at the hostile score or below.
pub proof fn lemma_damage_makes_hostile(
    w: Seq<EntityView>,
    map: WorldMap,
    victim: Entity,
    attacker: Entity,
    amount: u16,
    i: int,
)
    requires
        0 <= i < w.len(),
        w[i].entity == victim,
        w[i].actor.is_some(),
    ensures
        ({
            let after = resolve(
                w,
                map,
                victim,
                Events::TakeDamage(DamageAction { attacker: Some(attacker), amount }),
            );
            let ledger = after[i].actor.unwrap().relationships;
            ledger.contains_key(attacker) && ledger[attacker].0 <= crate::components::HOSTILE_SCORE
        }),
{
}

/// No event raises a score that a ledger holds, nor takes an entry out of a
/// ledger.
pub proof fn lemma_scores_never_rise(
    w: Seq<EntityView>,
    map: WorldMap,
    ent: Entity,
    event: Events,
    i: int,
    other: Entity,
)
    requires
        0 <= i < w.len(),
        w[i].actor.is_some(),
        w[i].actor.unwrap().relationships.contains_key(other),
    ensures
        ({
            let after = resolve(w, map, ent, event)[i];
            after.actor.is_some() && after.actor.unwrap().relationships.contains_key(other)
                && after.actor.unwrap().relationships[other].0
                <= w[i].actor.unwrap().relationships[other].0
        }),
{
}

} // verus!
