//! The tick: every system once, in a fixed order.

use vstd::prelude::*;
use crate::damage::{collided, damage_on, DamagePolicy};
use crate::entity::Entity;
use crate::feedback::{blinked, BlinkStyle};
use crate::intent::{aimed, steered};
use crate::kinematics::{moved_on, sped_up};
use crate::lifecycle::{bounced, fired, judged, ranged, swept, Anchor, Fence, Laser};
use crate::vector::Vec2;
use crate::world::World;

verus! {

/// The distance from an anchor beyond which a projectile is removed.
#[derive(Clone, Copy, Debug, PartialEq, Eq, Structural)]
pub struct Range {
    pub anchor: Anchor,
    pub limit: i64,
}

/// What a scene fixes once, before its first tick.
#[derive(Clone, Copy, Debug, PartialEq, Eq)]
pub struct Config {
    /// Drag, per second.
    pub drag: u32,
    /// The acceleration that a movement intent asks for.
    pub thrust: i64,
    pub policy: DamagePolicy,
    /// The least health with which an entity lives: with one step an
    /// entity is destroyed when its health reaches zero, with zero only
    /// when its health falls below zero.
    pub threshold: i64,
    pub style: BlinkStyle,
    pub laser: Laser,
    pub range: Option<Range>,
    pub fence: Option<Fence>,
}

/// What the player asks for during one tick.
#[derive(Clone, Copy, Debug, PartialEq, Eq)]
pub struct Input {
    /// The direction to accelerate in; zero asks for nothing.
    pub intent: Vec2,
    /// The point to look at, where there is a pointer.
    pub target: Option<Vec2>,
    /// Whether one shot is to be fired.
    pub fire: bool,
}

/// What a tick did to the population.
#[derive(Clone, Copy, Debug, PartialEq, Eq)]
pub struct Outcome {
    /// How many entities were removed.
    pub removed: usize,
    /// The projectile that was fired, if one was.
    pub shot: Option<u64>,
}

impl Config {
    pub open spec fn wf(self) -> bool {
        &&& self.policy.wf()
        &&& self.laser.wf()
        &&& (self.range matches Some(r) ==> (r.anchor matches Anchor::Point(p) ==> p.wf()))
    }

    /// Tests `wf`.
    pub fn is_valid(&self) -> (ok: bool)
        ensures
            ok == self.wf(),
    {
        let range_ok: bool = match self.range {
            Some(r) => match r.anchor {
                Anchor::Point(p) => p.is_valid(),
                Anchor::Entity(_) => true,
            },
            None => true,
        };
        self.policy.is_valid() && self.laser.is_valid() && range_ok
    }
}

impl Input {
    pub open spec fn wf(self) -> bool {
        &&& self.intent.wf()
        &&& (self.target matches Some(t) ==> t.wf())
    }

    /// Tests `wf`.
    pub fn is_valid(&self) -> (ok: bool)
        ensures
            ok == self.wf(),
    {
        let target_ok: bool = match self.target {
            Some(t) => t.is_valid(),
            None => true,
        };
        self.intent.is_valid() && target_ok
    }
}

/// The entities `s` once intent and kinematics have had their turn: the
/// player's intent becomes acceleration and heading, acceleration becomes
/// velocity, velocity becomes position.
pub open spec fn driven(s: Seq<Entity>, player: u64, input: Input, dt: u32, config: Config) -> Seq<
    Entity,
> {
    moved_on(
        sped_up(
            aimed(steered(s, player, input.intent, config.thrust), player, input.target),
            config.drag,
            dt,
        ),
        dt,
    )
}

/// The damage that the entity at position `k` of `s` takes in the tick.
pub open spec fn damage_in_tick(
    s: Seq<Entity>,
    player: u64,
    input: Input,
    dt: u32,
    config: Config,
    k: int,
) -> int {
    damage_on(config.policy, driven(s, player, input, dt, config), k)
}

/// The entities `s` with every projectile marked that the configured range
/// rules out.
pub open spec fn ranged_by(s: Seq<Entity>, range: Option<Range>) -> Seq<Entity> {
    match range {
        Some(r) => ranged(s, r.anchor, r.limit),
        None => s,
    }
}

/// The entities `s` after the configured fence, if there is one.
pub open spec fn bounced_by(s: Seq<Entity>, fence: Option<Fence>) -> Seq<Entity> {
    match fence {
        Some(f) => bounced(s, f),
        None => s,
    }
}

/// The entities `s` after the collisions of the tick and what follows from
/// them: health is lowered, the dead and the strayed are marked, the fence
/// turns entities round, and the hit flash. `damages` holds the damage of
/// each entity.
pub open spec fn settled(s: Seq<Entity>, damages: Seq<i128>, dt: u32, config: Config) -> Seq<
    Entity,
> {
    blinked(
        bounced_by(
            ranged_by(judged(collided(config.policy, s), config.threshold), config.range),
            config.fence,
        ),
        damages,
        dt,
        config.style,
    )
}

/// The damage of each entity of `s` in one tick's collisions.
pub open spec fn damages_of(policy: DamagePolicy, s: Seq<Entity>) -> Seq<i128> {
    Seq::new(s.len(), |k: int| damage_on(policy, s, k) as i128)
}

/// The entities `s` after one whole tick, where `fresh` is the id that the
/// next spawned entity gets.
pub open spec fn ticked(
    s: Seq<Entity>,
    fresh: u64,
    player: u64,
    input: Input,
    dt: u32,
    config: Config,
) -> Seq<Entity> {
    let moved = driven(s, player, input, dt, config);
    let left = swept(settled(moved, damages_of(config.policy, moved), dt, config));
    fired(left, fresh, player, input.fire, config.laser)
}

impl World {
    /// Advances the world by one tick of `dt` microseconds. The systems run
    /// in a fixed order: intent, kinematics, collision detection, damage,
    /// then lifecycle and feedback; what was marked for destruction is
    /// removed when the tick ends, and a shot that was asked for is fired by
    /// a player that is still there.
    pub fn tick(&mut self, player: u64, input: &Input, dt: u32, config: &Config) -> (done: Outcome)
        requires
            old(self).wf(),
            input.wf(),
            config.wf(),
        ensures
            final(self).wf(),
            final(self)@ == ticked(old(self)@, old(self).fresh(), player, *input, dt, *config),
            done.removed + final(self)@.len() == old(self)@.len() + if done.shot is Some {
                1int
            } else {
                0int
            },
            done.shot is Some ==> done.shot == Some(old(self).fresh()) && final(self).fresh()
                == old(self).fresh() + 1,
            done.shot is None ==> final(self).fresh() == old(self).fresh(),
    {
        self.handle_player_movement(player, &input.intent, config.thrust);
        assert(self@.len() == old(self)@.len());
        self.handle_player_orientation(player, input.target);
        assert(self@.len() == old(self)@.len());
        self.handle_acceleration(config.drag, dt);
        self.move_entities(dt);
        let ghost moved = self@;
        let damages: Vec<i128> = self.handle_collisions(config.policy);
        assert(damages@ =~= damages_of(config.policy, moved));
        self.mark_dead(config.threshold);
        match config.range {
            Some(r) => {
                self.despawn_lasers(r.anchor, r.limit);
            },
            None => {},
        }
        match config.fence {
            Some(f) => {
                self.bounce(&f);
            },
            None => {},
        }
        self.handle_blinking(&damages, dt, &config.style);
        assert(self@.len() == old(self)@.len());
        let removed: usize = self.sweep();
        let ghost left = self@;
        let shot: Option<u64> = self.player_shooting(player, input.fire, &config.laser);
        assert(self@.len() == left.len() + if shot is Some {
            1int
        } else {
            0int
        });
        Outcome { removed, shot }
    }
}

} // verus!
