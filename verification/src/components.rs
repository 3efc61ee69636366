use vstd::prelude::*;
use vstd::string::*;
use crate::events::{Action, DamageAction, Events};
use crate::math::Vector2Int;

verus! {

/// The name of one entity of a world.
#[derive(Clone, Copy, Debug, PartialEq, Eq, Structural, Hash)]
pub struct Entity(pub u64);

/// Marks an entity that no damage can hurt.
#[derive(Clone, Copy, Debug, PartialEq, Eq, Structural)]
pub struct Invulnerable;

impl Default for Invulnerable {
    fn default() -> (r: Self) {
        Invulnerable
    }
}

impl Invulnerable {
    /// Takes all force out of a blow.
    pub fn take_damage(&self, action: &mut DamageAction)
        ensures
            final(action).amount == 0,
            final(action).attacker == old(action).attacker,
    {
        action.amount = 0;
    }
}

/// The score below which, and at which, an entity counts as made hostile.
pub const HOSTILE_SCORE: i32 = -500;

/// Pixels along each side of a tile on the screen.
pub const TILE_PIXEL_SIZE: i64 = 16;

/// The cost in energy of every action that an entity decides on by itself.
pub const DECIDED_ACTION_COST: u32 = 1;

/// Health left after a blow of `amount`: never below zero.
pub open spec fn health_after(health: u16, amount: u16) -> u16 {
    if amount >= health {
        0
    } else {
        (health - amount) as u16
    }
}

/// Energy after one regeneration at `speed`, held at the most that fits.
pub open spec fn energy_after(energy: u64, speed: u32) -> u64 {
    if energy + speed > u64::MAX {
        u64::MAX
    } else {
        (energy + speed) as u64
    }
}

/// The vitals of an entity. Energy grows by `speed` with every scheduling
/// pass and pays for actions; both are counted in whole points.
#[derive(Clone, Copy, Debug, PartialEq, Eq, Structural)]
pub struct Physics {
    pub health: u16,
    pub max_health: u16,
    pub speed: u32,
    pub energy: u64,
}

impl Default for Physics {
    fn default() -> (r: Self)
        ensures
            r == (Physics { health: 0, max_health: 0, speed: 0, energy: 0 }),
    {
        Physics { health: 0, max_health: 0, speed: 0, energy: 0 }
    }
}

impl Physics {
    pub fn new(starting_health: u16, speed: u32) -> (r: Self)
        ensures
            r == (Physics {
                health: starting_health,
                max_health: starting_health,
                speed,
                energy: 0,
            }),
    {
        Physics { health: starting_health, max_health: starting_health, speed, energy: 0 }
    }

    /// Takes the force of a blow from the health, which stops at zero.
    pub fn take_damage(&mut self, action: &DamageAction)
        ensures
            *final(self) == (Physics {
                health: health_after(old(self).health, action.amount),
                ..*old(self)
            }),
    {
        self.health = self.health.saturating_sub(action.amount);
    }

    /// Adds the speed to the energy.
    pub fn generate_energy(&mut self)
        ensures
            *final(self) == (Physics {
                energy: energy_after(old(self).energy, old(self).speed),
                ..*old(self)
            }),
    {
        self.energy = self.energy.saturating_add(self.speed as u64);
    }

    /// Whether any health is left.
    pub fn is_alive(&self) -> (r: bool)
        ensures
            r == (self.health > 0),
    {
        self.health > 0
    }
}

#[derive(Clone, Copy, Debug, PartialEq, Eq, Structural)]
pub struct Weapon {
    pub attack: u16,
}

impl Default for Weapon {
    fn default() -> (r: Self)
        ensures
            r.attack == 0,
    {
        Weapon { attack: 0 }
    }
}

/// Marks the entity that the player steers.
#[derive(Clone, Copy, Debug, PartialEq, Eq, Structural)]
pub struct PlayerController;

impl Default for PlayerController {
    fn default() -> (r: Self) {
        PlayerController
    }
}

/// A place on the screen, in pixels.
#[derive(Clone, Copy, Debug, PartialEq, Eq, Structural)]
pub struct ScreenPosition {
    pub x: i64,
    pub y: i64,
}

/// The place on the screen of the tile on a cell.
pub open spec fn screen_of(cell: Vector2Int) -> ScreenPosition {
    ScreenPosition { x: (cell.x * TILE_PIXEL_SIZE) as i64, y: (cell.y * TILE_PIXEL_SIZE) as i64 }
}

/// The cell that a step of `direction` from `cell` leads to. A step over the
/// edge of the grid comes back in at the other side.
pub open spec fn stepped(cell: Vector2Int, direction: Vector2Int) -> Vector2Int {
    Vector2Int {
        x: vstd::wrapping::i32_specs::wrapping_add(cell.x, direction.x),
        y: vstd::wrapping::i32_specs::wrapping_add(cell.y, direction.y),
    }
}

/// Where an entity stands: its cell on the grid, and the place on the screen
/// that follows from it.
#[derive(Clone, Copy, Debug, PartialEq, Eq, Structural)]
pub struct Transform {
    pub screen_positon: ScreenPosition,
    pub grid_position: Vector2Int,
}

impl Default for Transform {
    fn default() -> (r: Self)
        ensures
            r == Transform::at(Vector2Int { x: 0, y: 0 }),
    {
        Transform {
            screen_positon: ScreenPosition { x: 0, y: 0 },
            grid_position: Vector2Int { x: 0, y: 0 },
        }
    }
}

impl Transform {
    /// The transform of an entity that stands on `cell`.
    pub open spec fn at(cell: Vector2Int) -> Transform {
        Transform { screen_positon: screen_of(cell), grid_position: cell }
    }

    /// A transform on `grid_position`.
    pub fn new(grid_position: Vector2Int) -> (r: Self)
        ensures
            r == Transform::at(grid_position),
    {
        Transform {
            screen_positon: ScreenPosition {
                x: grid_position.x as i64 * TILE_PIXEL_SIZE,
                y: grid_position.y as i64 * TILE_PIXEL_SIZE,
            },
            grid_position,
        }
    }

    /// Puts the entity on `grid_position`.
    pub fn move_pos(&mut self, grid_position: Vector2Int)
        ensures
            *final(self) == Transform::at(grid_position),
    {
        self.grid_position = grid_position;
        self.screen_positon = ScreenPosition {
            x: grid_position.x as i64 * TILE_PIXEL_SIZE,
            y: grid_position.y as i64 * TILE_PIXEL_SIZE,
        };
    }

    /// Moves the entity by `grid_direction`, whatever lies there.
    pub fn move_direction(&mut self, grid_direction: Vector2Int)
        ensures
            *final(self) == Transform::at(stepped(old(self).grid_position, grid_direction)),
    {
        let cell = Vector2Int {
            x: self.grid_position.x.wrapping_add(grid_direction.x),
            y: self.grid_position.y.wrapping_add(grid_direction.y),
        };
        self.move_pos(cell);
    }
}

/// How one entity stands to another: below zero an enemy, else a friend.
#[derive(Clone, Copy, Debug, PartialEq, Eq, Structural)]
pub struct Relationship(pub i32);

impl Default for Relationship {
    fn default() -> (r: Self)
        ensures
            r.0 == 0,
    {
        Relationship(0)
    }
}

impl Relationship {
    pub fn is_friendly(&self) -> (r: bool)
        ensures
            r == (self.0 >= 0),
    {
        self.0 >= 0
    }

    pub fn is_enemy(&self) -> (r: bool)
        ensures
            r == (self.0 < 0),
    {
        self.0 < 0
    }
}

/// The ledger of one actor: how it stands to the entities that it has met,
/// kept in a `hashbrown::HashMap` whose keys are the entities' numbers.
#[verifier::external_body]
pub struct Relationships {
    scores: hashbrown::HashMap<u64, i32>,
}

/// The entries of a ledger.
pub uninterp spec fn relationship_entries(ledger: Relationships) -> Map<Entity, Relationship>;

/// The ledger without entries.
pub open spec fn no_relationships() -> Map<Entity, Relationship> {
    Map::empty()
}

/// Whether a ledger holds `other` as an enemy. An entity without an entry is
/// none.
pub open spec fn holds_enemy(ledger: Map<Entity, Relationship>, other: Entity) -> bool {
    ledger.contains_key(other) && ledger[other].0 < 0
}

/// The score toward an entity once it has done harm: what it was, but
/// `HOSTILE_SCORE` at most.
pub open spec fn hostile_score(ledger: Map<Entity, Relationship>, other: Entity) -> Relationship {
    if ledger.contains_key(other) && ledger[other].0 < HOSTILE_SCORE {
        ledger[other]
    } else {
        Relationship(HOSTILE_SCORE)
    }
}

/// A ledger after `other` has done harm to its owner.
pub open spec fn made_hostile(ledger: Map<Entity, Relationship>, other: Entity) -> Map<
    Entity,
    Relationship,
> {
    ledger.insert(other, hostile_score(ledger, other))
}

impl View for Relationships {
    type V = Map<Entity, Relationship>;

    open spec fn view(&self) -> Map<Entity, Relationship> {
        relationship_entries(*self)
    }
}

impl Relationships {
    /// `hashbrown::HashMap::new`: a ledger without entries.
    #[verifier::external_body]
    fn raw_new() -> (r: Relationships)
        ensures
            relationship_entries(r) == no_relationships(),
    {
        Relationships { scores: hashbrown::HashMap::new() }
    }

    /// `hashbrown::HashMap::get`: the score kept for the entity, if there is
    /// one.
    #[verifier::external_body]
    fn raw_get(&self, other: Entity) -> (r: Option<Relationship>)
        ensures
            r == relationship_entries(*self).get(other),
    {
        self.scores.get(&other.0).map(|score| Relationship(*score))
    }

    /// `hashbrown::HashMap::insert`: the score is kept for the entity in
    /// place of the one kept before; every other entry stays.
    #[verifier::external_body]
    fn raw_insert(&mut self, other: Entity, relationship: Relationship)
        ensures
            relationship_entries(*final(self)) == relationship_entries(*old(self)).insert(
                other,
                relationship,
            ),
    {
        self.scores.insert(other.0, relationship.0);
    }

    /// A ledger without entries.
    pub fn new() -> (r: Relationships)
        ensures
            r@ == no_relationships(),
    {
        Relationships::raw_new()
    }

    /// The relationship to `other`, if the ledger has one.
    pub fn get(&self, other: Entity) -> (r: Option<Relationship>)
        ensures
            r == self@.get(other),
    {
        self.raw_get(other)
    }

    /// Sets the relationship to `other`.
    pub fn set(&mut self, other: Entity, relationship: Relationship)
        ensures
            final(self)@ == old(self)@.insert(other, relationship),
    {
        self.raw_insert(other, relationship);
    }

    /// Whether `e` is held as an enemy. An entity without an entry is none.
    pub fn is_enemy(&self, e: Entity) -> (r: bool)
        ensures
            r == holds_enemy(self@, e),
    {
        match self.get(e) {
            Some(relationship) => relationship.is_enemy(),
            None => false,
        }
    }

    /// Records that `other` has done harm: its score drops to `HOSTILE_SCORE`
    /// unless it is lower already.
    pub fn make_hostile(&mut self, other: Entity)
        ensures
            final(self)@ == made_hostile(old(self)@, other),
    {
        let score = match self.get(other) {
            Some(relationship) => if relationship.0 < HOSTILE_SCORE {
                relationship
            } else {
                Relationship(HOSTILE_SCORE)
            },
            None => Relationship(HOSTILE_SCORE),
        };
        self.set(other, score);
    }
}

/// The turn state of an entity: the action queued for it, if any, and its
/// ledger.
pub struct Actor {
    pub action: Option<Action>,
    pub relationships: Relationships,
}

/// What an actor is in contracts.
pub ghost struct ActorView {
    pub action: Option<Action>,
    pub relationships: Map<Entity, Relationship>,
}

impl View for Actor {
    type V = ActorView;

    open spec fn view(&self) -> ActorView {
        ActorView { action: self.action, relationships: self.relationships@ }
    }
}

/// What an idle entity on `grid_pos` does when chance gives it the step
/// `x`, `y`: it heads for the cell there, or does nothing where the step is
/// none or leaves the grid.
pub open spec fn idle_action(grid_pos: Vector2Int, x: int, y: int) -> Action {
    Action {
        cost: DECIDED_ACTION_COST,
        event: if (x != 0 || y != 0) && i32::MIN <= grid_pos.x + x <= i32::MAX && i32::MIN
            <= grid_pos.y + y <= i32::MAX {
            Events::MoveTo(Vector2Int { x: (grid_pos.x + x) as i32, y: (grid_pos.y + y) as i32 })
        } else {
            Events::Empty
        },
    }
}

impl Actor {
    /// An actor with nothing queued and an empty ledger.
    pub fn new() -> (r: Actor)
        ensures
            r@ == (ActorView { action: None, relationships: no_relationships() }),
    {
        Actor { action: None, relationships: Relationships::new() }
    }

    /// What an idle entity does when chance gives it the step `x`, `y`.
    pub fn wander(grid_pos: Vector2Int, x: i32, y: i32) -> (r: Action)
        ensures
            r == idle_action(grid_pos, x as int, y as int),
    {
        let mut event = Events::Empty;
        if x != 0 || y != 0 {
            match grid_pos.checked_plus(Vector2Int::new(x, y)) {
                Some(cell) => {
                    event = Events::MoveTo(cell);
                },
                None => {},
            }
        }
        Action { cost: DECIDED_ACTION_COST, event }
    }

    /// The action of an entity on `grid_pos` that has nothing better to do: a
    /// step at random to one of the eight cells around it, or none.
    pub fn get_action(&self, grid_pos: Vector2Int) -> (r: Action)
        ensures
            exists|x: int, y: int| -1 <= x <= 1 && -1 <= y <= 1 && r == idle_action(grid_pos, x, y),
    {
        let x = crate::random::random_in_range(-1, 2);
        let y = crate::random::random_in_range(-1, 2);
        let action = Actor::wander(grid_pos, x, y);
        assert(-1 <= x <= 1 && -1 <= y <= 1 && action == idle_action(grid_pos, x as int, y as int));
        action
    }
}

impl Default for Actor {
    fn default() -> (r: Self)
        ensures
            r@ == (ActorView { action: None, relationships: no_relationships() }),
    {
        Actor::new()
    }
}

/// Marks an entity that another one holds.
#[derive(Clone, Copy, Debug, PartialEq, Eq, Structural)]
pub struct Captured {
    pub owner: Entity,
}

#[derive(Clone, Copy, Debug, PartialEq, Eq, Structural)]
pub struct HealthPotion {}

impl Default for HealthPotion {
    fn default() -> (r: Self) {
        HealthPotion {  }
    }
}

impl HealthPotion {
    /// What using the potion does: nothing yet, at the cost of one action.
    pub fn get_action(&self) -> (r: Option<Action>)
        ensures
            r == Some(Action { cost: DECIDED_ACTION_COST, event: Events::Empty }),
    {
        Some(Action { cost: DECIDED_ACTION_COST, event: Events::Empty })
    }

    pub fn name(&self) -> (r: &'static str)
        ensures
            r@ == "Health Potion"@,
    {
        "Health Potion"
    }

    pub fn description(&self) -> (r: &'static str)
        ensures
            r@ == "no description"@,
    {
        "no description"
    }
}

/// A thing that an entity can carry, use or throw.
#[derive(Clone, Copy, Debug, PartialEq, Eq, Structural)]
pub enum Item {
    HealthPotion(HealthPotion),
}

/// The name of an item.
pub open spec fn item_name(item: Item) -> Seq<char> {
    match item {
        Item::HealthPotion(_) => "Health Potion"@,
    }
}

impl Item {
    /// What using the item does.
    pub fn get_action(&self) -> (r: Option<Action>)
        ensures
            r == Some(Action { cost: DECIDED_ACTION_COST, event: Events::Empty }),
    {
        match self {
            Item::HealthPotion(potion) => potion.get_action(),
        }
    }

    pub fn name(&self) -> (r: &'static str)
        ensures
            r@ == item_name(*self),
    {
        match self {
            Item::HealthPotion(potion) => potion.name(),
        }
    }

    pub fn description(&self) -> (r: &'static str)
        ensures
            r@ == "no description"@,
    {
        match self {
            Item::HealthPotion(potion) => potion.description(),
        }
    }
}

/// What an entity carries.
pub struct Inventory {
    pub items: Vec<Item>,
}

impl Default for Inventory {
    fn default() -> (r: Self)
        ensures
            r.items@ == Seq::<Item>::empty(),
    {
        Inventory { items: Vec::new() }
    }
}


/// Finds what an entity does next from its goals. Nothing is decided here yet.
pub fn find_action() {
}

/// The goal to kill a target.
#[derive(Clone, Copy, Debug, PartialEq, Eq, Structural)]
pub struct KillTarget {
    pub target: u32,
}

#[derive(Clone, Copy, Debug, PartialEq, Eq, Structural)]
pub struct B {}

/// What an entity is out to do.
#[derive(Clone, Copy, Debug, PartialEq, Eq, Structural)]
pub enum Goal {
    KillTarget(KillTarget),
    B(B),
}

/// Whether a goal is reached. Both kinds of goal count as reached at once.
pub open spec fn goal_finished(goal: Goal) -> bool {
    match goal {
        Goal::KillTarget(_) => true,
        Goal::B(_) => true,
    }
}

/// Whether a goal can say what to do next.
pub open spec fn goal_can_act(goal: Goal) -> bool {
    match goal {
        Goal::KillTarget(_) => true,
        Goal::B(_) => true,
    }
}

/// What a goal says to do next.
pub open spec fn goal_action(goal: Goal) -> Action {
    match goal {
        Goal::KillTarget(_) => Action { cost: 0, event: Events::Empty },
        Goal::B(_) => Action { cost: 0, event: Events::Empty },
    }
}

impl Goal {
    pub fn finished(&self) -> (r: bool)
        ensures
            r == goal_finished(*self),
    {
        match self {
            Goal::KillTarget(_) => true,
            Goal::B(_) => true,
        }
    }

    pub fn get_action(&self) -> (r: Action)
        ensures
            r == goal_action(*self),
    {
        match self {
            Goal::KillTarget(_) => Action { cost: 0, event: Events::Empty },
            Goal::B(_) => Action { cost: 0, event: Events::Empty },
        }
    }

    pub fn can_get_action_from_goal(&self) -> (r: bool)
        ensures
            r == goal_can_act(*self),
    {
        match self {
            Goal::KillTarget(_) => true,
            Goal::B(_) => true,
        }
    }
}

/// The goals without the reached ones at their end.
pub open spec fn pending_goals(goals: Seq<Goal>) -> Seq<Goal>
    decreases goals.len(),
{
    if goals.len() == 0 || !goal_finished(goals.last()) {
        goals
    } else {
        pending_goals(goals.drop_last())
    }
}

/// The goals of an entity, the one that it follows now last.
pub struct GoalHandler {
    pub goals: Vec<Goal>,
}

impl GoalHandler {
    /// Drops the reached goals from the end of the list and asks the goal
    /// that is then last what to do next. There is no action where no goal is
    /// left or the last one cannot say.
    pub fn get_action(&mut self) -> (r: Option<Action>)
        ensures
            final(self).goals@ == pending_goals(old(self).goals@),
            r == (if final(self).goals@.len() > 0 && goal_can_act(final(self).goals@.last()) {
                Some(goal_action(final(self).goals@.last()))
            } else {
                None
            }),
    {
        while self.goals.len() > 0 && self.goals[self.goals.len() - 1].finished()
            invariant
                pending_goals(self.goals@) == pending_goals(old(self).goals@),
            decreases self.goals.len(),
        {
            proof {
                assert(self.goals@.drop_last() =~= self.goals@.subrange(
                    0,
                    self.goals@.len() - 1,
                ));
            }
            self.goals.pop();
        }
        if self.goals.len() > 0 {
            let goal = self.goals[self.goals.len() - 1];
            if goal.can_get_action_from_goal() {
                return Some(goal.get_action());
            }
        }
        None
    }
}

} // verus!
