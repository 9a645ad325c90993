//! Lifecycle: entities are spawned alive, marked for destruction when their
//! health or their distance says so, and removed when the tick ends.

use vstd::prelude::*;
use crate::damage::{collided, lemma_entity_order_is_irrelevant, DamagePolicy};
use crate::entity::{Blink, CircularCollider, Color, Entity, Life, Role};
use crate::fixed::{clamp, in_range, magnitude_of, LIMIT};
use crate::vector::Vec2;
use crate::world::{index_of, lemma_index_of, valid_entities, World};

verus! {

/// The point from which a projectile's distance is measured.
#[derive(Clone, Copy, Debug, PartialEq, Eq, Structural)]
pub enum Anchor {
    Point(Vec2),
    Entity(u64),
}

/// One axis of the plane.
#[derive(Clone, Copy, Debug, PartialEq, Eq, Structural)]
pub enum Axis {
    X,
    Y,
}

/// The stretch of one axis in which a moving entity keeps its heading.
#[derive(Clone, Copy, Debug, PartialEq, Eq, Structural)]
pub struct Fence {
    pub axis: Axis,
    pub min: i64,
    pub max: i64,
}

/// What a shot is made of.
#[derive(Clone, Copy, Debug, PartialEq, Eq, Structural)]
pub struct Laser {
    pub speed: i64,
    pub radius: i64,
    pub health: i64,
    pub scale: i64,
    pub color: Color,
}

impl Laser {
    /// The radius is that of a circle, and health and scale can be stored.
    pub open spec fn wf(self) -> bool {
        &&& 0 <= self.radius <= LIMIT
        &&& in_range(self.health as int)
        &&& in_range(self.scale as int)
    }

    /// The projectile that `shooter` fires: it starts where the shooter
    /// stands, flies where the shooter looks, and carries its payload as
    /// health.
    pub open spec fn shot_by(self, shooter: Entity) -> Entity {
        Entity {
            id: shooter.id,
            role: Role::Projectile,
            life: Life::Alive,
            position: shooter.position,
            forward: shooter.forward,
            scale: self.scale,
            velocity: Some(shooter.forward.stretched(self.speed as int)),
            acceleration: None,
            collider: Some(CircularCollider { radius: self.radius }),
            health: Some(self.health),
            blink: Blink::Inactive,
            color: self.color,
            visible: true,
        }
    }

    /// Tests `wf`.
    pub fn is_valid(&self) -> (ok: bool)
        ensures
            ok == self.wf(),
    {
        0 <= self.radius && self.radius <= LIMIT && -LIMIT <= self.health && self.health <= LIMIT
            && -LIMIT <= self.scale && self.scale <= LIMIT
    }

    pub fn laser(&self, shooter: &Entity) -> (e: Entity)
        requires
            self.wf(),
            shooter.wf(),
        ensures
            e == self.shot_by(*shooter),
            e.wf(),
    {
        Entity {
            id: shooter.id,
            role: Role::Projectile,
            life: Life::Alive,
            position: shooter.position,
            forward: shooter.forward,
            scale: self.scale,
            velocity: Some(shooter.forward.scaled(self.speed)),
            acceleration: None,
            collider: Some(CircularCollider { radius: self.radius }),
            health: Some(self.health),
            blink: Blink::Inactive,
            color: self.color,
            visible: true,
        }
    }
}

impl Entity {
    /// Whether this entity's health has fallen below `threshold`, the
    /// least health with which an entity lives.
    pub open spec fn starved(self, threshold: i64) -> bool {
        self.health matches Some(h) && h < threshold
    }

    /// Whether this entity is a projectile farther than `limit` from `from`.
    pub open spec fn strayed(self, from: Vec2, limit: i64) -> bool {
        self.role == Role::Projectile && (limit < 0 || self.position.dist_sq(from) > limit * limit)
    }

    /// Whether this entity has left the fence.
    pub open spec fn escaped(self, fence: Fence) -> bool {
        match fence.axis {
            Axis::X => self.position.x > fence.max || self.position.x < fence.min,
            Axis::Y => self.position.y > fence.max || self.position.y < fence.min,
        }
    }

    /// This entity, marked for destruction if it is alive and `doomed`.
    pub open spec fn marked(self, doomed: bool) -> Entity {
        if doomed && self.life == Life::Alive {
            Entity { life: Life::PendingDestroy, ..self }
        } else {
            self
        }
    }

    /// This entity after the fence: a moving entity that has left it turns
    /// round, heading and velocity both.
    pub open spec fn bounced(self, fence: Fence) -> Entity {
        match self.velocity {
            Some(v) => if self.escaped(fence) {
                Entity { forward: self.forward.opposite(), velocity: Some(v.opposite()), ..self }
            } else {
                self
            },
            None => self,
        }
    }

    /// This entity with its visibility flipped, if it is a light.
    pub open spec fn toggled(self) -> Entity {
        if self.role == Role::Light {
            Entity { visible: !self.visible, ..self }
        } else {
            self
        }
    }

    /// Tests `starved`.
    pub fn is_starved(&self, threshold: i64) -> (r: bool)
        ensures
            r == self.starved(threshold),
    {
        match self.health {
            Some(h) => h < threshold,
            None => false,
        }
    }

    /// Tests `strayed`.
    pub fn is_strayed(&self, from: &Vec2, limit: i64) -> (r: bool)
        requires
            self.wf(),
            from.wf(),
        ensures
            r == self.strayed(*from, limit),
    {
        if self.role != Role::Projectile {
            return false;
        }
        if limit < 0 {
            return true;
        }
        let reach: u128 = magnitude_of(limit);
        assert(reach * reach <= 0x8000_0000_0000_0000 * 0x8000_0000_0000_0000) by (nonlinear_arith)
            requires
                0 <= reach <= 0x8000_0000_0000_0000,
        ;
        self.position.distance_squared(from) > reach * reach
    }

    pub fn mark(&self, doomed: bool) -> (e: Entity)
        ensures
            e == self.marked(doomed),
            self.wf() ==> e.wf(),
    {
        let mut e: Entity = *self;
        if doomed && self.life == Life::Alive {
            e.life = Life::PendingDestroy;
        }
        e
    }

    pub fn bounce(&self, fence: &Fence) -> (e: Entity)
        requires
            self.wf(),
        ensures
            e == self.bounced(*fence),
            e.wf(),
    {
        let out: bool = match fence.axis {
            Axis::X => self.position.x > fence.max || self.position.x < fence.min,
            Axis::Y => self.position.y > fence.max || self.position.y < fence.min,
        };
        match self.velocity {
            Some(v) => if out {
                let mut e: Entity = *self;
                e.forward = self.forward.negated();
                e.velocity = Some(v.negated());
                e
            } else {
                *self
            },
            None => *self,
        }
    }

    pub fn toggle(&self) -> (e: Entity)
        ensures
            e == self.toggled(),
            self.wf() ==> e.wf(),
    {
        let mut e: Entity = *self;
        if self.role == Role::Light {
            e.visible = !self.visible;
        }
        e
    }
}

/// The point that `anchor` names among the entities `s`, if it names one.
pub open spec fn anchor_point(s: Seq<Entity>, anchor: Anchor) -> Option<Vec2> {
    match anchor {
        Anchor::Point(p) => Some(p),
        Anchor::Entity(id) => match index_of(s, id, s.len() as int) {
            Some(i) => Some(s[i].position),
            None => None,
        },
    }
}

/// The entities `s` with every projectile marked that has strayed beyond
/// `limit` from the anchor. Without an anchor nothing is marked.
pub open spec fn ranged(s: Seq<Entity>, anchor: Anchor, limit: i64) -> Seq<Entity> {
    match anchor_point(s, anchor) {
        Some(p) => Seq::new(s.len(), |i: int| s[i].marked(s[i].strayed(p, limit))),
        None => s,
    }
}

/// The entities `s` with every entity marked whose health has fallen below
/// `threshold`.
pub open spec fn judged(s: Seq<Entity>, threshold: i64) -> Seq<Entity> {
    Seq::new(s.len(), |i: int| s[i].marked(s[i].starved(threshold)))
}

/// The entities `s` with every moving entity turned round that has left
/// the fence.
pub open spec fn bounced(s: Seq<Entity>, fence: Fence) -> Seq<Entity> {
    Seq::new(s.len(), |i: int| s[i].bounced(fence))
}

/// The entities `s` with the visibility of every light flipped.
pub open spec fn toggled(s: Seq<Entity>) -> Seq<Entity> {
    Seq::new(s.len(), |i: int| s[i].toggled())
}

/// The entities of `s` that are alive, in their order.
pub open spec fn swept(s: Seq<Entity>) -> Seq<Entity> {
    survivors(s, s.len() as int)
}

/// The entities `s` after a request to fire: with a request, a shooter in
/// the world and an id to give, the shooter's projectile has joined them.
pub open spec fn fired(s: Seq<Entity>, fresh: u64, shooter: u64, fire: bool, laser: Laser) -> Seq<
    Entity,
> {
    match index_of(s, shooter, s.len() as int) {
        Some(i) => if fire && fresh < u64::MAX {
            s.push(Entity { id: fresh, ..laser.shot_by(s[i]) })
        } else {
            s
        },
        None => s,
    }
}

/// The entities among the first `n` of `s` that are alive, in their order.
pub open spec fn survivors(s: Seq<Entity>, n: int) -> Seq<Entity>
    decreases n,
{
    if n <= 0 {
        Seq::empty()
    } else if s[n - 1].life == Life::Alive {
        survivors(s, n - 1).push(s[n - 1])
    } else {
        survivors(s, n - 1)
    }
}

/// Whether `e` is among the first `n` entities of `s`.
pub open spec fn occurs(s: Seq<Entity>, n: int, e: Entity) -> bool {
    exists|m: int| 0 <= m < n && s[m] == e
}

/// The survivors are alive entities of `s`, and they are valid entities
/// where `s` holds valid entities.
pub proof fn lemma_survivors(s: Seq<Entity>, n: int)
    requires
        valid_entities(s),
        0 <= n <= s.len(),
    ensures
        valid_entities(survivors(s, n)),
        survivors(s, n).len() <= n,
        forall|t: int|
            0 <= t < survivors(s, n).len() ==> occurs(s, n, #[trigger] survivors(s, n)[t])
                && survivors(s, n)[t].life == Life::Alive,
    decreases n,
{
    if n > 0 {
        lemma_survivors(s, n - 1);
        let prev = survivors(s, n - 1);
        let now = survivors(s, n);
        assert forall|t: int| 0 <= t < now.len() implies occurs(s, n, #[trigger] now[t])
            && now[t].life == Life::Alive by {
            if t < prev.len() {
                assert(now[t] == prev[t]);
                assert(occurs(s, n - 1, prev[t]));
                let m = choose|m: int| 0 <= m < n - 1 && s[m] == prev[t];
                assert(0 <= m < n && s[m] == now[t]);
            } else {
                assert(now[t] == s[n - 1]);
            }
        }
        assert forall|a: int, b: int| 0 <= a < b < now.len() implies (#[trigger] now[a]).id != (
        #[trigger] now[b]).id by {
            assert(now[a] == prev[a]);
            if b < prev.len() {
                assert(now[b] == prev[b]);
            } else {
                assert(occurs(s, n - 1, prev[a]));
                let m = choose|m: int| 0 <= m < n - 1 && s[m] == prev[a];
                assert(s[m].id != s[n - 1].id);
            }
        }
        assert forall|t: int| 0 <= t < now.len() implies (#[trigger] now[t]).wf() by {
            if t < prev.len() {
                assert(now[t] == prev[t]);
            }
        }
    }
}

/// Every alive entity of `s` is among the survivors.
pub proof fn lemma_survivors_complete(s: Seq<Entity>, n: int, m: int)
    requires
        0 <= m < n <= s.len(),
        s[m].life == Life::Alive,
    ensures
        survivors(s, n).contains(s[m]),
    decreases n,
{
    if m == n - 1 {
        assert(survivors(s, n).last() == s[m]);
    } else {
        lemma_survivors_complete(s, n - 1, m);
        let prev = survivors(s, n - 1);
        let t = choose|t: int| 0 <= t < prev.len() && prev[t] == s[m];
        assert(survivors(s, n)[t] == s[m]);
    }
}

/// At the threshold an entity lives, and one more unit of damage destroys
/// it: an alive entity whose health is exactly `threshold` stays alive
/// after a tick without damage and is marked for destruction after a tick
/// that takes one unit of health from it.
pub proof fn lemma_threshold(e: Entity, threshold: i64)
    requires
        e.life == Life::Alive,
        e.health == Some(threshold),
        -LIMIT < threshold <= LIMIT,
    ensures
        e.hurt(0).marked(e.hurt(0).starved(threshold)).life == Life::Alive,
        e.hurt(1).marked(e.hurt(1).starved(threshold)).life == Life::PendingDestroy,
{
    assert(clamp(threshold as int - 0) == threshold);
    assert(clamp(threshold as int - 1) == threshold - 1);
}

/// Who is destroyed in a tick does not depend on the order in which the
/// entities stand: in two worlds that hold the same entities, an entity is
/// left with the same health and meets the same fate.
pub proof fn lemma_fate_ignores_order(
    policy: DamagePolicy,
    threshold: i64,
    s: Seq<Entity>,
    shuffled: Seq<Entity>,
    i: int,
    j: int,
)
    requires
        valid_entities(s),
        valid_entities(shuffled),
        s.to_multiset() == shuffled.to_multiset(),
        0 <= i < s.len(),
        0 <= j < shuffled.len(),
        s[i].id == shuffled[j].id,
    ensures
        judged(collided(policy, s), threshold)[i] == judged(
            collided(policy, shuffled),
            threshold,
        )[j],
{
    lemma_entity_order_is_irrelevant(policy, s, shuffled, i, j);
}

impl World {
    /// Marks for destruction every entity whose health has fallen below
    /// `threshold`.
    pub fn mark_dead(&mut self, threshold: i64)
        requires
            old(self).wf(),
        ensures
            final(self).wf(),
            final(self).fresh() == old(self).fresh(),
            final(self)@ == judged(old(self)@, threshold),
    {
        let ghost before = self@;
        let n: usize = self.len();
        let mut i: usize = 0;
        while i < n
            invariant
                self.wf(),
                self.fresh() == old(self).fresh(),
                before == old(self)@,
                n == before.len(),
                self@.len() == n,
                i <= n,
                forall|k: int|
                    0 <= k < i ==> #[trigger] self@[k] == before[k].marked(
                        before[k].starved(threshold),
                    ),
                forall|k: int| i <= k < n ==> #[trigger] self@[k] == before[k],
            decreases n - i,
        {
            let e: Entity = self.at(i);
            let marked: Entity = e.mark(e.is_starved(threshold));
            self.replace(i, marked);
            i += 1;
        }
        assert(self@ =~= judged(before, threshold));
    }

    /// Marks for destruction every projectile that is farther than `limit`
    /// from the anchor. Where the anchor is an entity that is not in the
    /// world, nothing is marked.
    pub fn despawn_lasers(&mut self, anchor: Anchor, limit: i64)
        requires
            old(self).wf(),
            anchor matches Anchor::Point(p) ==> p.wf(),
        ensures
            final(self).wf(),
            final(self).fresh() == old(self).fresh(),
            final(self)@ == ranged(old(self)@, anchor, limit),
    {
        let from: Vec2 = match anchor {
            Anchor::Point(p) => p,
            Anchor::Entity(id) => match self.position_of(id) {
                Some(i) => self.at(i).position,
                None => {
                    return ;
                },
            },
        };
        let ghost before = self@;
        let n: usize = self.len();
        let mut i: usize = 0;
        while i < n
            invariant
                self.wf(),
                from.wf(),
                self.fresh() == old(self).fresh(),
                before == old(self)@,
                n == before.len(),
                self@.len() == n,
                i <= n,
                forall|k: int|
                    0 <= k < i ==> #[trigger] self@[k] == before[k].marked(
                        before[k].strayed(from, limit),
                    ),
                forall|k: int| i <= k < n ==> #[trigger] self@[k] == before[k],
            decreases n - i,
        {
            let e: Entity = self.at(i);
            let marked: Entity = e.mark(e.is_strayed(&from, limit));
            self.replace(i, marked);
            i += 1;
        }
        assert(self@ =~= ranged(before, anchor, limit));
    }

    /// Removes every entity that is marked for destruction and says how
    /// many there were. The others keep their order.
    pub fn sweep(&mut self) -> (removed: usize)
        requires
            old(self).wf(),
        ensures
            final(self).wf(),
            final(self).fresh() == old(self).fresh(),
            final(self)@ == swept(old(self)@),
            removed == old(self)@.len() - final(self)@.len(),
    {
        let n: usize = self.len();
        let mut kept: Vec<Entity> = Vec::new();
        let mut i: usize = 0;
        while i < n
            invariant
                self.wf(),
                n == self@.len(),
                i <= n,
                kept@ == survivors(self@, i as int),
            decreases n - i,
        {
            let e: Entity = self.at(i);
            if e.life == Life::Alive {
                kept.push(e);
            }
            i += 1;
        }
        proof {
            lemma_survivors(self@, n as int);
            assert forall|t: int| 0 <= t < kept@.len() implies (#[trigger] kept@[t]).id
                < self.fresh() by {
                assert(occurs(self@, n as int, kept@[t]));
                let m = choose|m: int| 0 <= m < n && self@[m] == kept@[t];
                assert(self@[m].id < self.fresh());
            }
        }
        let removed: usize = n - kept.len();
        self.restock(kept);
        removed
    }

    /// Turns round every moving entity that has left the fence.
    pub fn bounce(&mut self, fence: &Fence)
        requires
            old(self).wf(),
        ensures
            final(self).wf(),
            final(self).fresh() == old(self).fresh(),
            final(self)@ == bounced(old(self)@, *fence),
    {
        let ghost before = self@;
        let n: usize = self.len();
        let mut i: usize = 0;
        while i < n
            invariant
                self.wf(),
                self.fresh() == old(self).fresh(),
                before == old(self)@,
                n == before.len(),
                self@.len() == n,
                i <= n,
                forall|k: int| 0 <= k < i ==> #[trigger] self@[k] == before[k].bounced(*fence),
                forall|k: int| i <= k < n ==> #[trigger] self@[k] == before[k],
            decreases n - i,
        {
            let e: Entity = self.at(i).bounce(fence);
            self.replace(i, e);
            i += 1;
        }
        assert(self@ =~= bounced(before, *fence));
    }

    /// Flips the visibility of every light.
    pub fn toggle_lights(&mut self)
        requires
            old(self).wf(),
        ensures
            final(self).wf(),
            final(self).fresh() == old(self).fresh(),
            final(self)@ == toggled(old(self)@),
    {
        let ghost before = self@;
        let n: usize = self.len();
        let mut i: usize = 0;
        while i < n
            invariant
                self.wf(),
                self.fresh() == old(self).fresh(),
                before == old(self)@,
                n == before.len(),
                self@.len() == n,
                i <= n,
                forall|k: int| 0 <= k < i ==> #[trigger] self@[k] == before[k].toggled(),
                forall|k: int| i <= k < n ==> #[trigger] self@[k] == before[k],
            decreases n - i,
        {
            let e: Entity = self.at(i).toggle();
            self.replace(i, e);
            i += 1;
        }
        assert(self@ =~= toggled(before));
    }

    /// Fires one shot from `shooter` if `fire` asks for one: the projectile
    /// joins the world and its id is returned. Nothing is spawned without
    /// a request, without the shooter, or when no id is left.
    pub fn player_shooting(&mut self, shooter: u64, fire: bool, laser: &Laser) -> (r: Option<u64>)
        requires
            old(self).wf(),
            laser.wf(),
        ensures
            final(self).wf(),
            r is Some <==> fire && old(self).lookup(shooter) is Some && old(self).fresh()
                < u64::MAX,
            r is Some ==> r == Some(old(self).fresh()) && final(self).fresh() == old(self).fresh()
                + 1,
            final(self)@ == fired(old(self)@, old(self).fresh(), shooter, fire, *laser),
            r is None ==> final(self).fresh() == old(self).fresh(),
    {
        proof {
            lemma_index_of(self@, shooter, self@.len() as int);
        }
        if !fire {
            return None;
        }
        match self.get(shooter) {
            Some(e) => {
                match self.spawn(laser.laser(&e)) {
                    Ok(id) => Some(id),
                    Err(_) => None,
                }
            },
            None => None,
        }
    }
}

} // verus!
