//! The entity record and its components.

use vstd::prelude::*;
use crate::fixed::{in_range, LIMIT, UNIT};
use crate::vector::Vec2;

verus! {

/// What an entity is to the scene.
#[derive(Clone, Copy, Debug, PartialEq, Eq, Structural)]
pub enum Role {
    Prop,
    Player,
    Projectile,
    Light,
}

/// Where an entity stands between spawn and removal. An entity that is no
/// longer in the world is `Destroyed`.
#[derive(Clone, Copy, Debug, PartialEq, Eq, Structural)]
pub enum Life {
    Alive,
    PendingDestroy,
    Destroyed,
}

/// The flash that follows a hit: idle, or running for so many microseconds.
#[derive(Clone, Copy, Debug, PartialEq, Eq, Structural)]
pub enum Blink {
    Inactive,
    Flashing(u32),
}

/// A displayed colour, one fixed-point channel each.
#[derive(Clone, Copy, Debug, PartialEq, Eq, Structural)]
pub struct Color {
    pub red: u32,
    pub green: u32,
    pub blue: u32,
    pub alpha: u32,
}

impl Color {
    /// White at full strength.
    pub open spec fn plain() -> Color {
        Color { red: 1_000_000, green: 1_000_000, blue: 1_000_000, alpha: 1_000_000 }
    }

    pub fn new(red: u32, green: u32, blue: u32, alpha: u32) -> (c: Color)
        ensures
            c == (Color { red, green, blue, alpha }),
    {
        Color { red, green, blue, alpha }
    }

    /// White at full strength.
    pub fn white() -> (c: Color)
        ensures
            c == Color::plain(),
    {
        Color { red: 1_000_000, green: 1_000_000, blue: 1_000_000, alpha: 1_000_000 }
    }
}

/// A circle around the entity's position.
#[derive(Clone, Copy, Debug, PartialEq, Eq, Structural)]
pub struct CircularCollider {
    pub radius: i64,
}

impl CircularCollider {
    /// The radius is not negative and can be stored.
    pub open spec fn wf(self) -> bool {
        0 <= self.radius <= LIMIT
    }

    /// Tests `wf`.
    pub fn is_valid(&self) -> (ok: bool)
        ensures
            ok == self.wf(),
    {
        0 <= self.radius && self.radius <= LIMIT
    }
}

/// One entity with the components it owns. A component that an entity may
/// lack is an `Option`.
#[derive(Clone, Copy, Debug, PartialEq, Eq)]
pub struct Entity {
    pub id: u64,
    pub role: Role,
    pub life: Life,
    pub position: Vec2,
    pub forward: Vec2,
    pub scale: i64,
    pub velocity: Option<Vec2>,
    pub acceleration: Option<Vec2>,
    pub collider: Option<CircularCollider>,
    pub health: Option<i64>,
    pub blink: Blink,
    pub color: Color,
    pub visible: bool,
}

impl Entity {
    /// Every scalar can be stored, the collider is a circle and `forward` is
    /// a heading.
    pub open spec fn wf(self) -> bool {
        &&& self.position.wf()
        &&& self.forward.is_direction()
        &&& in_range(self.scale as int)
        &&& (self.velocity matches Some(v) ==> v.wf())
        &&& (self.acceleration matches Some(a) ==> a.wf())
        &&& (self.collider matches Some(c) ==> c.wf())
        &&& (self.health matches Some(h) ==> in_range(h as int))
    }

    /// An entity of the given role at `position` that has no component
    /// yet: alive, visible, plain white, at scale one, looking along the x axis.
    pub open spec fn bare(role: Role, position: Vec2) -> Entity {
        Entity {
            id: 0,
            role,
            life: Life::Alive,
            position,
            forward: Vec2 { x: UNIT, y: 0 },
            scale: UNIT,
            velocity: None,
            acceleration: None,
            collider: None,
            health: None,
            blink: Blink::Inactive,
            color: Color::plain(),
            visible: true,
        }
    }

    pub fn new(role: Role, position: Vec2) -> (e: Entity)
        ensures
            e == Entity::bare(role, position),
            position.wf() ==> e.wf(),
    {
        Entity {
            id: 0,
            role,
            life: Life::Alive,
            position,
            forward: Vec2 { x: UNIT, y: 0 },
            scale: UNIT,
            velocity: None,
            acceleration: None,
            collider: None,
            health: None,
            blink: Blink::Inactive,
            color: Color::white(),
            visible: true,
        }
    }

    /// Tests `wf`.
    pub fn is_valid(&self) -> (ok: bool)
        ensures
            ok == self.wf(),
    {
        let velocity_ok: bool = match self.velocity {
            Some(v) => v.is_valid(),
            None => true,
        };
        let acceleration_ok: bool = match self.acceleration {
            Some(a) => a.is_valid(),
            None => true,
        };
        let collider_ok: bool = match self.collider {
            Some(c) => c.is_valid(),
            None => true,
        };
        let health_ok: bool = match self.health {
            Some(h) => -LIMIT <= h && h <= LIMIT,
            None => true,
        };
        self.position.is_valid() && self.forward.is_heading() && -LIMIT <= self.scale
            && self.scale <= LIMIT && velocity_ok && acceleration_ok && collider_ok && health_ok
    }
}

} // verus!
