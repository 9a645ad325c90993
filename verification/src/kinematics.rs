//! Kinematics: drag and acceleration change velocity, velocity changes position.

use vstd::prelude::*;
use crate::entity::Entity;
use crate::fixed::{
    clamp, div_away_from_zero, div_toward_zero, lemma_div_away_from_zero_bound,
    lemma_div_toward_zero_bound, magnitude, mul_div, mul_div_away, saturate, UNIT,
};
use crate::vector::{length_sq, Vec2};
use crate::world::World;

verus! {

/// What drag takes from the velocity `v` in `dt` microseconds: `drag * v * dt`,
/// rounded away from zero, so that a moving body always loses speed.
pub open spec fn drag_loss(v: int, drag: int, dt: int) -> int {
    div_away_from_zero(v * (drag * dt), UNIT * UNIT)
}

/// The change that the rate `rate` per second makes in `dt` microseconds:
/// `rate * dt`, rounded toward zero.
pub open spec fn gain(rate: int, dt: int) -> int {
    div_toward_zero(rate * dt, UNIT as int)
}

/// The velocity `v` after `dt` microseconds of drag and of the acceleration `a`.
pub open spec fn sped(v: int, a: int, drag: int, dt: int) -> int {
    clamp(v - drag_loss(v, drag, dt) + gain(a, dt))
}

/// The coordinate `p` after `dt` microseconds at the velocity `v`.
pub open spec fn moved(p: int, v: int, dt: int) -> int {
    clamp(p + gain(v, dt))
}

/// One velocity component after a tick.
pub fn accelerate(v: i64, a: i64, drag: u32, dt: u32) -> (r: i64)
    ensures
        r as int == sped(v as int, a as int, drag as int, dt as int),
{
    assert(drag * dt <= 0xffff_ffff * 0xffff_ffff) by (nonlinear_arith)
        requires
            0 <= drag <= 0xffff_ffff,
            0 <= dt <= 0xffff_ffff,
    ;
    let k: u64 = drag as u64 * dt as u64;
    let loss: i128 = mul_div_away(v, k, 1_000_000_000_000);
    let push: i128 = mul_div(a, dt as u64, UNIT as u64);
    proof {
        assert(UNIT * UNIT == 1_000_000_000_000) by (nonlinear_arith);
        let vk: int = v as int * k as int;
        assert(magnitude(vk) <= 0x8000_0000_0000_0000 * 0xffff_ffff_ffff_ffff) by (nonlinear_arith)
            requires
                vk == v as int * k as int,
                -0x8000_0000_0000_0000 <= v as int <= 0x8000_0000_0000_0000,
                0 <= k as int <= 0xffff_ffff_ffff_ffff,
        ;
        lemma_div_away_from_zero_bound(vk, 1_000_000_000_000);
        let adt: int = a as int * dt as int;
        assert(magnitude(adt) <= 0x8000_0000_0000_0000 * 0xffff_ffff) by (nonlinear_arith)
            requires
                adt == a as int * dt as int,
                -0x8000_0000_0000_0000 <= a as int <= 0x8000_0000_0000_0000,
                0 <= dt as int <= 0xffff_ffff,
        ;
        lemma_div_toward_zero_bound(adt, UNIT as int);
    }
    saturate(v as i128 - loss + push)
}

/// One coordinate after a tick.
pub fn advance(p: i64, v: i64, dt: u32) -> (r: i64)
    ensures
        r as int == moved(p as int, v as int, dt as int),
{
    let step: i128 = mul_div(v, dt as u64, UNIT as u64);
    proof {
        let vdt: int = v as int * dt as int;
        assert(magnitude(vdt) <= 0x8000_0000_0000_0000 * 0xffff_ffff) by (nonlinear_arith)
            requires
                vdt == v as int * dt as int,
                -0x8000_0000_0000_0000 <= v as int <= 0x8000_0000_0000_0000,
                0 <= dt as int <= 0xffff_ffff,
        ;
        lemma_div_toward_zero_bound(vdt, UNIT as int);
    }
    saturate(p as i128 + step)
}

impl Vec2 {
    /// This velocity after a tick of drag and of the acceleration `a`.
    pub open spec fn sped(self, a: Vec2, drag: int, dt: int) -> Vec2 {
        Vec2 {
            x: sped(self.x as int, a.x as int, drag, dt) as i64,
            y: sped(self.y as int, a.y as int, drag, dt) as i64,
        }
    }

    /// This position after a tick at the velocity `v`.
    pub open spec fn moved(self, v: Vec2, dt: int) -> Vec2 {
        Vec2 {
            x: moved(self.x as int, v.x as int, dt) as i64,
            y: moved(self.y as int, v.y as int, dt) as i64,
        }
    }
}

impl Entity {
    /// This entity after its acceleration has been consumed: an entity that
    /// has both velocity and acceleration gets its new velocity, and its
    /// acceleration returns to zero.
    pub open spec fn accelerated(self, drag: u32, dt: u32) -> Entity {
        match (self.velocity, self.acceleration) {
            (Some(v), Some(a)) => Entity {
                velocity: Some(v.sped(a, drag as int, dt as int)),
                acceleration: Some(Vec2 { x: 0, y: 0 }),
                ..self
            },
            _ => self,
        }
    }

    /// This entity after it has moved: an entity that has a velocity gets
    /// its new position.
    pub open spec fn advanced(self, dt: u32) -> Entity {
        match self.velocity {
            Some(v) => Entity { position: self.position.moved(v, dt as int), ..self },
            None => self,
        }
    }

    pub fn accelerate(&self, drag: u32, dt: u32) -> (e: Entity)
        ensures
            e == self.accelerated(drag, dt),
            self.wf() ==> e.wf(),
    {
        match (self.velocity, self.acceleration) {
            (Some(v), Some(a)) => {
                let mut e: Entity = *self;
                e.velocity = Some(
                    Vec2 { x: accelerate(v.x, a.x, drag, dt), y: accelerate(v.y, a.y, drag, dt) },
                );
                e.acceleration = Some(Vec2 { x: 0, y: 0 });
                e
            },
            _ => *self,
        }
    }

    pub fn advance(&self, dt: u32) -> (e: Entity)
        ensures
            e == self.advanced(dt),
            self.wf() ==> e.wf(),
    {
        match self.velocity {
            Some(v) => {
                let mut e: Entity = *self;
                e.position = Vec2 {
                    x: advance(self.position.x, v.x, dt),
                    y: advance(self.position.y, v.y, dt),
                };
                e
            },
            None => *self,
        }
    }
}

/// The entities `s`, each after its acceleration has been consumed.
pub open spec fn sped_up(s: Seq<Entity>, drag: u32, dt: u32) -> Seq<Entity> {
    Seq::new(s.len(), |i: int| s[i].accelerated(drag, dt))
}

/// The entities `s`, each after it has moved.
pub open spec fn moved_on(s: Seq<Entity>, dt: u32) -> Seq<Entity> {
    Seq::new(s.len(), |i: int| s[i].advanced(dt))
}

impl World {
    /// Consumes every entity's acceleration: drag and acceleration change
    /// the velocity, and the acceleration returns to zero.
    pub fn handle_acceleration(&mut self, drag: u32, dt: u32)
        requires
            old(self).wf(),
        ensures
            final(self).wf(),
            final(self).fresh() == old(self).fresh(),
            final(self)@ == sped_up(old(self)@, drag, dt),
    {
        let ghost before = self@;
        let n: usize = self.len();
        let mut i: usize = 0;
        while i < n
            invariant
                self.wf(),
                self.fresh() == old(self).fresh(),
                before == old(self)@,
                n == before.len(),
                self@.len() == n,
                i <= n,
                forall|k: int| 0 <= k < i ==> #[trigger] self@[k] == before[k].accelerated(drag, dt),
                forall|k: int| i <= k < n ==> #[trigger] self@[k] == before[k],
            decreases n - i,
        {
            let e: Entity = self.at(i).accelerate(drag, dt);
            self.replace(i, e);
            i += 1;
        }
        assert(self@ =~= sped_up(before, drag, dt));
    }

    /// Moves every entity that has a velocity.
    pub fn move_entities(&mut self, dt: u32)
        requires
            old(self).wf(),
        ensures
            final(self).wf(),
            final(self).fresh() == old(self).fresh(),
            final(self)@ == moved_on(old(self)@, dt),
    {
        let ghost before = self@;
        let n: usize = self.len();
        let mut i: usize = 0;
        while i < n
            invariant
                self.wf(),
                self.fresh() == old(self).fresh(),
                before == old(self)@,
                n == before.len(),
                self@.len() == n,
                i <= n,
                forall|k: int| 0 <= k < i ==> #[trigger] self@[k] == before[k].advanced(dt),
                forall|k: int| i <= k < n ==> #[trigger] self@[k] == before[k],
            decreases n - i,
        {
            let e: Entity = self.at(i).advance(dt);
            self.replace(i, e);
            i += 1;
        }
        assert(self@ =~= moved_on(before, dt));
    }
}

/// Drag alone slows a moving body without turning it round: while
/// `drag * dt` stays below one, a velocity that is not zero shrinks in
/// magnitude and keeps its sign.
pub proof fn lemma_drag_slows(v: int, drag: int, dt: int)
    requires
        v != 0,
        0 < drag * dt < UNIT * UNIT,
    ensures
        magnitude(sped(v, 0, drag, dt)) < magnitude(v),
        v > 0 ==> sped(v, 0, drag, dt) >= 0,
        v < 0 ==> sped(v, 0, drag, dt) <= 0,
{
    let k: int = drag * dt;
    let d: int = UNIT * UNIT;
    let m: int = magnitude(v);
    let loss: int = drag_loss(v, drag, dt);
    lemma_div_away_from_zero_bound(v * k, d);
    assert(magnitude(v * k) == m * k && (v > 0 ==> v * k > 0) && (v < 0 ==> v * k < 0))
        by (nonlinear_arith)
        requires
            m == magnitude(v),
            k > 0,
            v != 0,
    ;
    let l: int = magnitude(loss);
    assert(l <= m) by (nonlinear_arith)
        requires
            l * d < m * k + d,
            0 < k < d,
            0 <= l,
            0 < m,
    ;
    assert(0 * dt == 0) by (nonlinear_arith);
    assert(0int / (UNIT as int) == 0);
}

/// A body at rest stays at rest while nothing accelerates it.
pub proof fn lemma_rest_stays(drag: int, dt: int)
    ensures
        sped(0, 0, drag, dt) == 0,
{
    assert(0 * (drag * dt) == 0) by (nonlinear_arith);
    assert(0 * dt == 0) by (nonlinear_arith);
    assert(UNIT * UNIT == 1_000_000_000_000) by (nonlinear_arith);
    assert(0int / (UNIT as int) == 0);
    assert(0int % 1_000_000_000_000 == 0 && 0int / 1_000_000_000_000 == 0);
}

/// The velocity `v` after `n` ticks without acceleration.
pub open spec fn coasting(v: Vec2, drag: int, dt: int, n: nat) -> Vec2
    decreases n,
{
    if n == 0 {
        v
    } else {
        coasting(v, drag, dt, (n - 1) as nat).sped(Vec2 { x: 0, y: 0 }, drag, dt)
    }
}

/// The squared speed of the velocity `v`.
pub open spec fn speed_sq(v: Vec2) -> int {
    length_sq(v.x as int, v.y as int)
}

/// Without acceleration a moving body slows down with every tick and never
/// turns round: while `drag * dt` stays below one, its speed falls strictly
/// until it is zero, and neither component changes its sign.
pub proof fn lemma_coasting_slows(v: Vec2, drag: int, dt: int, n: nat)
    requires
        0 < drag * dt < UNIT * UNIT,
    ensures
        ({
            let now = coasting(v, drag, dt, n);
            let next = coasting(v, drag, dt, n + 1);
            &&& now != (Vec2 { x: 0, y: 0 }) ==> speed_sq(next) < speed_sq(now)
            &&& now == (Vec2 { x: 0, y: 0 }) ==> next == now
            &&& v.x >= 0 ==> 0 <= next.x <= now.x <= v.x
            &&& v.x <= 0 ==> 0 >= next.x >= now.x >= v.x
            &&& v.y >= 0 ==> 0 <= next.y <= now.y <= v.y
            &&& v.y <= 0 ==> 0 >= next.y >= now.y >= v.y
        }),
    decreases n,
{
    let now = coasting(v, drag, dt, n);
    let next = coasting(v, drag, dt, n + 1);
    assert(coasting(v, drag, dt, ((n + 1) - 1) as nat) == now);
    if n > 0 {
        lemma_coasting_slows(v, drag, dt, (n - 1) as nat);
        assert(coasting(v, drag, dt, ((n - 1) + 1) as nat) == now);
    }
    lemma_rest_stays(drag, dt);
    if now.x != 0 {
        lemma_drag_slows(now.x as int, drag, dt);
    }
    if now.y != 0 {
        lemma_drag_slows(now.y as int, drag, dt);
    }
    let (a, b) = (magnitude(now.x as int), magnitude(next.x as int));
    let (c, d) = (magnitude(now.y as int), magnitude(next.y as int));
    assert(a * a == now.x * now.x && b * b == next.x * next.x && c * c == now.y * now.y && d * d
        == next.y * next.y) by (nonlinear_arith)
        requires
            a == magnitude(now.x as int),
            b == magnitude(next.x as int),
            c == magnitude(now.y as int),
            d == magnitude(next.y as int),
    ;
    assert(b <= a ==> b * b <= a * a) by (nonlinear_arith)
        requires
            0 <= b,
            0 <= a,
    ;
    assert(b < a ==> b * b < a * a) by (nonlinear_arith)
        requires
            0 <= b,
            0 <= a,
    ;
    assert(d <= c ==> d * d <= c * c) by (nonlinear_arith)
        requires
            0 <= d,
            0 <= c,
    ;
    assert(d < c ==> d * d < c * c) by (nonlinear_arith)
        requires
            0 <= d,
            0 <= c,
    ;
}

/// Without acceleration a moving body comes to rest: while `drag * dt`
/// stays below one, each tick takes at least one step from a component
/// that is not zero, so after as many ticks as the larger component has
/// steps the body stands still.
pub proof fn lemma_coasting_rests(v: Vec2, drag: int, dt: int, n: nat)
    requires
        0 < drag * dt < UNIT * UNIT,
    ensures
        magnitude(coasting(v, drag, dt, n).x as int) <= if magnitude(v.x as int) >= n {
            magnitude(v.x as int) - n
        } else {
            0
        },
        magnitude(coasting(v, drag, dt, n).y as int) <= if magnitude(v.y as int) >= n {
            magnitude(v.y as int) - n
        } else {
            0
        },
        n >= magnitude(v.x as int) && n >= magnitude(v.y as int) ==> coasting(v, drag, dt, n) == (
        Vec2 { x: 0, y: 0 }),
    decreases n,
{
    if n > 0 {
        let prev = coasting(v, drag, dt, (n - 1) as nat);
        lemma_coasting_rests(v, drag, dt, (n - 1) as nat);
        lemma_rest_stays(drag, dt);
        if prev.x != 0 {
            lemma_drag_slows(prev.x as int, drag, dt);
        }
        if prev.y != 0 {
            lemma_drag_slows(prev.y as int, drag, dt);
        }
    }
}

} // verus!
