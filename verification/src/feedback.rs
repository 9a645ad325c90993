//! Feedback: an entity that was hit flashes, and the flash fades back to
//! the neutral colour within a fixed time.

use vstd::prelude::*;
use crate::entity::{Blink, Color, Entity};
use crate::total::total;
use crate::world::World;

verus! {

/// How a flash looks: how long it lasts, in microseconds, the colour it
/// starts with and the colour it fades to.
#[derive(Clone, Copy, Debug, PartialEq, Eq, Structural)]
pub struct BlinkStyle {
    pub duration: u32,
    pub alert: Color,
    pub neutral: Color,
}

/// One colour channel of a flash that has run for `elapsed` of `duration`
/// microseconds: `alert` at the start, `neutral` at the end, and in
/// between the two in proportion, rounded down.
pub open spec fn blend(alert: int, neutral: int, elapsed: int, duration: int) -> int {
    (alert * (duration - elapsed) + neutral * elapsed) / duration
}

/// A flash starts at the alert colour and ends at the neutral colour,
/// exactly, and never leaves the range between the two.
pub proof fn lemma_blend_ends(alert: int, neutral: int, elapsed: int, duration: int)
    requires
        0 <= elapsed <= duration,
        duration > 0,
        0 <= alert,
        0 <= neutral,
    ensures
        blend(alert, neutral, 0, duration) == alert,
        blend(alert, neutral, duration, duration) == neutral,
        alert <= neutral ==> alert <= blend(alert, neutral, elapsed, duration) <= neutral,
        neutral <= alert ==> neutral <= blend(alert, neutral, elapsed, duration) <= alert,
{
    assert((alert * (duration - 0) + neutral * 0) / duration == alert) by (nonlinear_arith)
        requires
            duration > 0,
    ;
    assert((alert * (duration - duration) + neutral * duration) / duration == neutral)
        by (nonlinear_arith)
        requires
            duration > 0,
    ;
    let num: int = alert * (duration - elapsed) + neutral * elapsed;
    if alert <= neutral {
        assert(alert * duration <= num <= neutral * duration) by (nonlinear_arith)
            requires
                num == alert * (duration - elapsed) + neutral * elapsed,
                0 <= elapsed <= duration,
                0 <= alert <= neutral,
        ;
        assert(alert <= num / duration <= neutral) by (nonlinear_arith)
            requires
                alert * duration <= num <= neutral * duration,
                duration > 0,
        ;
    }
    if neutral <= alert {
        assert(neutral * duration <= num <= alert * duration) by (nonlinear_arith)
            requires
                num == alert * (duration - elapsed) + neutral * elapsed,
                0 <= elapsed <= duration,
                0 <= neutral <= alert,
        ;
        assert(neutral <= num / duration <= alert) by (nonlinear_arith)
            requires
                neutral * duration <= num <= alert * duration,
                duration > 0,
        ;
    }
}

/// One colour channel of a running flash.
pub fn mix(alert: u32, neutral: u32, elapsed: u32, duration: u32) -> (c: u32)
    requires
        elapsed <= duration,
        duration > 0,
    ensures
        c as int == blend(alert as int, neutral as int, elapsed as int, duration as int),
{
    let left: u32 = duration - elapsed;
    assert(alert * left <= 0xffff_ffff * 0xffff_ffff) by (nonlinear_arith)
        requires
            0 <= alert <= 0xffff_ffff,
            0 <= left <= 0xffff_ffff,
    ;
    assert(neutral * elapsed <= 0xffff_ffff * 0xffff_ffff) by (nonlinear_arith)
        requires
            0 <= neutral <= 0xffff_ffff,
            0 <= elapsed <= 0xffff_ffff,
    ;
    let num: u128 = alert as u128 * left as u128 + neutral as u128 * elapsed as u128;
    proof {
        lemma_blend_ends(alert as int, neutral as int, elapsed as int, duration as int);
    }
    (num / duration as u128) as u32
}

impl Color {
    /// The colour of a flash from `alert` to `neutral` that has run for
    /// `elapsed` of `duration` microseconds.
    pub open spec fn mixed(alert: Color, neutral: Color, elapsed: int, duration: int) -> Color {
        Color {
            red: blend(alert.red as int, neutral.red as int, elapsed, duration) as u32,
            green: blend(alert.green as int, neutral.green as int, elapsed, duration) as u32,
            blue: blend(alert.blue as int, neutral.blue as int, elapsed, duration) as u32,
            alpha: blend(alert.alpha as int, neutral.alpha as int, elapsed, duration) as u32,
        }
    }

    pub fn mix(alert: &Color, neutral: &Color, elapsed: u32, duration: u32) -> (c: Color)
        requires
            elapsed <= duration,
            duration > 0,
        ensures
            c == Color::mixed(*alert, *neutral, elapsed as int, duration as int),
    {
        Color {
            red: mix(alert.red, neutral.red, elapsed, duration),
            green: mix(alert.green, neutral.green, elapsed, duration),
            blue: mix(alert.blue, neutral.blue, elapsed, duration),
            alpha: mix(alert.alpha, neutral.alpha, elapsed, duration),
        }
    }
}

impl Entity {
    /// This entity after one tick of the flash. Damage starts the flash
    /// anew at the alert colour, also while one is running. Without damage
    /// a running flash advances by `dt`; once it has lasted its duration it
    /// ends, and the colour is the neutral one again.
    pub open spec fn blinked(self, damage: int, dt: u32, style: BlinkStyle) -> Entity {
        if damage > 0 {
            Entity { blink: Blink::Flashing(0), color: style.alert, ..self }
        } else {
            match self.blink {
                Blink::Inactive => self,
                Blink::Flashing(elapsed) => if elapsed + dt >= style.duration {
                    Entity { blink: Blink::Inactive, color: style.neutral, ..self }
                } else {
                    Entity {
                        blink: Blink::Flashing((elapsed + dt) as u32),
                        color: Color::mixed(
                            style.alert,
                            style.neutral,
                            elapsed + dt,
                            style.duration as int,
                        ),
                        ..self
                    }
                },
            }
        }
    }

    pub fn blink(&self, damage: i128, dt: u32, style: &BlinkStyle) -> (e: Entity)
        ensures
            e == self.blinked(damage as int, dt, *style),
            self.wf() ==> e.wf(),
            e.blink matches Blink::Flashing(elapsed) ==> elapsed <= style.duration,
    {
        let mut e: Entity = *self;
        if damage > 0 {
            e.blink = Blink::Flashing(0);
            e.color = style.alert;
        } else {
            match self.blink {
                Blink::Inactive => {},
                Blink::Flashing(elapsed) => {
                    let now: u64 = elapsed as u64 + dt as u64;
                    if now >= style.duration as u64 {
                        e.blink = Blink::Inactive;
                        e.color = style.neutral;
                    } else {
                        e.blink = Blink::Flashing(now as u32);
                        e.color = Color::mix(
                            &style.alert,
                            &style.neutral,
                            now as u32,
                            style.duration,
                        );
                    }
                },
            }
        }
        e
    }
}

/// The entities `s`, each after one tick of its flash.
pub open spec fn blinked(s: Seq<Entity>, damages: Seq<i128>, dt: u32, style: BlinkStyle) -> Seq<
    Entity,
> {
    Seq::new(s.len(), |i: int| s[i].blinked(damages[i] as int, dt, style))
}

impl World {
    /// Drives every entity's flash by one tick, from the damage that the
    /// tick's collisions added up for it.
    pub fn handle_blinking(&mut self, damages: &Vec<i128>, dt: u32, style: &BlinkStyle)
        requires
            old(self).wf(),
            damages@.len() == old(self)@.len(),
        ensures
            final(self).wf(),
            final(self).fresh() == old(self).fresh(),
            final(self)@ == blinked(old(self)@, damages@, dt, *style),
    {
        let ghost before = self@;
        let n: usize = self.len();
        let mut i: usize = 0;
        while i < n
            invariant
                self.wf(),
                self.fresh() == old(self).fresh(),
                before == old(self)@,
                n == before.len(),
                self@.len() == n,
                damages@.len() == n,
                i <= n,
                forall|k: int|
                    0 <= k < i ==> #[trigger] self@[k] == before[k].blinked(
                        damages@[k] as int,
                        dt,
                        *style,
                    ),
                forall|k: int| i <= k < n ==> #[trigger] self@[k] == before[k],
            decreases n - i,
        {
            let e: Entity = self.at(i).blink(damages[i], dt, style);
            self.replace(i, e);
            i += 1;
        }
        assert(self@ =~= blinked(before, damages@, dt, *style));
    }
}

/// The time that the ticks `dts` take together, in microseconds.
pub open spec fn time_of(dts: Seq<u32>) -> int {
    total(dts, |dt: u32| dt as int)
}

/// The entity `e` after the ticks `dts`, none of which harms it.
pub open spec fn faded(e: Entity, dts: Seq<u32>, style: BlinkStyle) -> Entity
    decreases dts.len(),
{
    if dts.len() == 0 {
        e
    } else {
        faded(e, dts.drop_last(), style).blinked(0, dts.last(), style)
    }
}

/// A flash is bounded: ticks that together take the flash's duration or
/// longer leave the entity idle in exactly the neutral colour, however the
/// time is cut into ticks. Until then the flash has run for exactly the
/// time that has passed.
pub proof fn lemma_flash_is_bounded(e: Entity, dts: Seq<u32>, style: BlinkStyle)
    requires
        e.blink == Blink::Flashing(0),
        dts.len() > 0,
    ensures
        time_of(dts) >= style.duration ==> faded(e, dts, style).blink == Blink::Inactive && faded(
            e,
            dts,
            style,
        ).color == style.neutral,
        time_of(dts) < style.duration ==> faded(e, dts, style).blink == Blink::Flashing(
            time_of(dts) as u32,
        ) && faded(e, dts, style).color == Color::mixed(
            style.alert,
            style.neutral,
            time_of(dts),
            style.duration as int,
        ),
    decreases dts.len(),
{
    let head = dts.drop_last();
    let f = |dt: u32| dt as int;
    assert(total(dts, f) == total(head, f) + f(dts.last()));
    lemma_time_is_not_negative(head);
    if head.len() > 0 {
        lemma_flash_is_bounded(e, head, style);
    } else {
        assert(faded(e, head, style) == e);
    }
}

/// No tick takes negative time.
pub proof fn lemma_time_is_not_negative(dts: Seq<u32>)
    ensures
        time_of(dts) >= 0,
    decreases dts.len(),
{
    if dts.len() > 0 {
        lemma_time_is_not_negative(dts.drop_last());
    }
}

} // verus!
