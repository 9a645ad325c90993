//! Intent: what the player asks for becomes acceleration, heading and fire
//! requests.

use vstd::prelude::*;
use crate::entity::Entity;
use crate::fixed::UNIT;
use crate::vector::Vec2;
use crate::world::{index_of, World};

verus! {

/// The direction that the held movement keys ask for. Where two opposite
/// keys are held, down wins over up and right wins over left.
pub open spec fn keyed(up: bool, down: bool, left: bool, right: bool) -> Vec2 {
    Vec2 {
        x: if right {
            UNIT
        } else if left {
            (-UNIT) as i64
        } else {
            0
        },
        y: if down {
            (-UNIT) as i64
        } else if up {
            UNIT
        } else {
            0
        },
    }
}

/// The direction that the held movement keys ask for.
pub fn direction_of_keys(up: bool, down: bool, left: bool, right: bool) -> (v: Vec2)
    ensures
        v == keyed(up, down, left, right),
        v.wf(),
{
    let x: i64 = if right {
        UNIT
    } else if left {
        -UNIT
    } else {
        0
    };
    let y: i64 = if down {
        -UNIT
    } else if up {
        UNIT
    } else {
        0
    };
    Vec2 { x, y }
}

impl Entity {
    /// This entity after the intent `intent`: a direction that is not zero
    /// replaces the acceleration by `thrust` along that direction. Without
    /// a direction, or without an acceleration to replace, nothing changes.
    pub open spec fn steered(self, intent: Vec2, thrust: i64) -> Entity {
        match (self.acceleration, intent.unit()) {
            (Some(_), Some(d)) => Entity {
                acceleration: Some(d.stretched(thrust as int)),
                ..self
            },
            _ => self,
        }
    }

    /// This entity turned toward `target`. An entity that stands on the
    /// target keeps its heading.
    pub open spec fn aimed(self, target: Vec2) -> Entity {
        match self.position.heading_to(target) {
            Some(d) => Entity { forward: d, ..self },
            None => self,
        }
    }

    pub fn steer(&self, intent: &Vec2, thrust: i64) -> (e: Entity)
        requires
            intent.wf(),
        ensures
            e == self.steered(*intent, thrust),
            self.wf() ==> e.wf(),
    {
        match (self.acceleration, intent.normalized()) {
            (Some(_), Some(d)) => {
                let mut e: Entity = *self;
                e.acceleration = Some(d.scaled(thrust));
                e
            },
            _ => *self,
        }
    }

    pub fn aim(&self, target: &Vec2) -> (e: Entity)
        requires
            self.wf(),
            target.wf(),
        ensures
            e == self.aimed(*target),
            e.wf(),
    {
        match self.position.direction_to(target) {
            Some(d) => {
                let mut e: Entity = *self;
                e.forward = d;
                e
            },
            None => *self,
        }
    }
}

/// The entities `s` after the player's movement intent.
pub open spec fn steered(s: Seq<Entity>, player: u64, intent: Vec2, thrust: i64) -> Seq<Entity> {
    match index_of(s, player, s.len() as int) {
        Some(i) => s.update(i, s[i].steered(intent, thrust)),
        None => s,
    }
}

/// The entities `s` after the player has turned toward the pointer.
pub open spec fn aimed(s: Seq<Entity>, player: u64, target: Option<Vec2>) -> Seq<Entity> {
    match (index_of(s, player, s.len() as int), target) {
        (Some(i), Some(t)) => s.update(i, s[i].aimed(t)),
        _ => s,
    }
}

impl World {
    /// Turns the player's movement intent into acceleration. The new
    /// acceleration replaces the old one. A world without the player is
    /// left as it is.
    pub fn handle_player_movement(&mut self, player: u64, intent: &Vec2, thrust: i64)
        requires
            old(self).wf(),
            intent.wf(),
        ensures
            final(self).wf(),
            final(self).fresh() == old(self).fresh(),
            final(self)@ == steered(old(self)@, player, *intent, thrust),
            final(self)@.len() == old(self)@.len(),
    {
        match self.position_of(player) {
            Some(i) => {
                let e: Entity = self.at(i).steer(intent, thrust);
                self.replace(i, e);
            },
            None => {},
        }
    }

    /// Turns the player toward the pointer, where there is one. A world
    /// without the player is left as it is.
    pub fn handle_player_orientation(&mut self, player: u64, target: Option<Vec2>)
        requires
            old(self).wf(),
            target matches Some(t) ==> t.wf(),
        ensures
            final(self).wf(),
            final(self).fresh() == old(self).fresh(),
            final(self)@ == aimed(old(self)@, player, target),
            final(self)@.len() == old(self)@.len(),
    {
        match (self.position_of(player), target) {
            (Some(i), Some(t)) => {
                let e: Entity = self.at(i).aim(&t);
                self.replace(i, e);
            },
            _ => {},
        }
    }
}

/// A repeating countdown that releases one shot each time it runs out.
#[derive(Clone, Copy, Debug, PartialEq, Eq, Structural)]
pub struct ShootingTimer {
    pub elapsed: u32,
    pub interval: u32,
}

impl ShootingTimer {
    /// The interval is not zero and the countdown is within it.
    pub open spec fn wf(self) -> bool {
        self.elapsed < self.interval
    }

    /// A countdown of `interval` microseconds; there is none of zero length.
    pub fn new(interval: u32) -> (r: Option<ShootingTimer>)
        ensures
            interval == 0 ==> r is None,
            interval > 0 ==> r == Some(ShootingTimer { elapsed: 0, interval }),
            r matches Some(t) ==> t.wf(),
    {
        if interval == 0 {
            None
        } else {
            Some(ShootingTimer { elapsed: 0, interval })
        }
    }

    /// Advances the countdown by `dt` microseconds and says whether it ran
    /// out. However long the tick, it releases one shot at most.
    pub fn tick(&mut self, dt: u32) -> (fired: bool)
        requires
            old(self).wf(),
        ensures
            final(self).wf(),
            final(self).interval == old(self).interval,
            fired == (old(self).elapsed + dt >= old(self).interval),
            final(self).elapsed == (old(self).elapsed + dt) % (old(self).interval as int),
    {
        let sum: u64 = self.elapsed as u64 + dt as u64;
        let fired: bool = sum >= self.interval as u64;
        self.elapsed = (sum % (self.interval as u64)) as u32;
        fired
    }
}

} // verus!
