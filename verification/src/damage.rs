//! Damage resolution: every contact of a tick harms both of its entities
//! alike, and health changes only once all contacts have been counted.

use vstd::prelude::*;
use crate::collision::{
    contacts, contacts_in, contacts_upto, lemma_contacts_sound, lemma_overlap_symmetric, row, Contact,
};
use crate::entity::Entity;
use crate::fixed::{clamp, in_range, saturate, LIMIT};
use crate::total::{lemma_total_concat, lemma_total_permutation, total};
use crate::world::{valid_entities, World};
use vstd::seq_lib::to_multiset_contains;

verus! {

/// How much damage one contact deals.
#[derive(Clone, Copy, Debug, PartialEq, Eq, Structural)]
pub enum DamagePolicy {
    /// The same amount for every contact.
    Fixed(i64),
    /// The smaller of the two entities' health: an entity deals no more
    /// than it has left.
    MutualHealth,
}

impl DamagePolicy {
    /// A fixed amount can be stored.
    pub open spec fn wf(self) -> bool {
        match self {
            DamagePolicy::Fixed(d) => in_range(d as int),
            DamagePolicy::MutualHealth => true,
        }
    }

    /// The damage that one contact between `a` and `b` adds to each of the
    /// two. An entity without health neither deals nor takes damage.
    pub open spec fn blow(self, a: Entity, b: Entity) -> int {
        match (a.health, b.health) {
            (Some(ha), Some(hb)) => match self {
                DamagePolicy::Fixed(d) => d as int,
                DamagePolicy::MutualHealth => if ha <= hb {
                    ha as int
                } else {
                    hb as int
                },
            },
            _ => 0,
        }
    }

    /// The damage that `a` takes from `b`: that of a contact if the two
    /// overlap, none if they do not.
    pub open spec fn hit(self, a: Entity, b: Entity) -> int {
        if a.overlaps(b) {
            self.blow(a, b)
        } else {
            0
        }
    }

    /// Tests `wf`.
    pub fn is_valid(&self) -> (ok: bool)
        ensures
            ok == self.wf(),
    {
        match self {
            DamagePolicy::Fixed(d) => -LIMIT <= *d && *d <= LIMIT,
            DamagePolicy::MutualHealth => true,
        }
    }

    /// The damage that one contact between `a` and `b` adds to each of the two.
    pub fn damage(&self, a: &Entity, b: &Entity) -> (d: i64)
        ensures
            d as int == self.blow(*a, *b),
            self.wf() && a.wf() && b.wf() ==> in_range(d as int),
    {
        match (a.health, b.health) {
            (Some(ha), Some(hb)) => match self {
                DamagePolicy::Fixed(d) => *d,
                DamagePolicy::MutualHealth => if ha <= hb {
                    ha
                } else {
                    hb
                },
            },
            _ => 0,
        }
    }
}

/// A contact harms both of its entities alike: what `a` takes from `b`,
/// `b` takes from `a`.
pub proof fn lemma_hit_symmetric(policy: DamagePolicy, a: Entity, b: Entity)
    ensures
        policy.blow(a, b) == policy.blow(b, a),
        policy.hit(a, b) == policy.hit(b, a),
{
    lemma_overlap_symmetric(a, b);
}

/// What the contact `c` adds to the damage of the entity at position `k`.
pub open spec fn share(policy: DamagePolicy, s: Seq<Entity>, c: Contact, k: int) -> int {
    if c.first == k || c.second == k {
        policy.blow(s[c.first as int], s[c.second as int])
    } else {
        0
    }
}

/// A contact adds the same damage to both of its entities, and none to
/// any other.
pub proof fn lemma_contact_harms_both_alike(
    policy: DamagePolicy,
    s: Seq<Entity>,
    c: Contact,
    k: int,
)
    ensures
        share(policy, s, c, c.first as int) == share(policy, s, c, c.second as int),
        k != c.first && k != c.second ==> share(policy, s, c, k) == 0,
{
}

/// The damage that the contacts `pairs` add up to for the entity at
/// position `k`.
pub open spec fn tally(policy: DamagePolicy, s: Seq<Entity>, pairs: Seq<Contact>, k: int) -> int {
    total(pairs, |c: Contact| share(policy, s, c, k))
}

/// The damage that the entity at position `k` takes from the entities at
/// the positions before `n`, itself left out.
pub open spec fn damage_upto(policy: DamagePolicy, s: Seq<Entity>, k: int, n: int) -> int
    decreases n,
{
    if n <= 0 {
        0
    } else if n - 1 == k {
        damage_upto(policy, s, k, n - 1)
    } else {
        damage_upto(policy, s, k, n - 1) + policy.hit(s[k], s[n - 1])
    }
}

/// The damage that the entity at position `k` takes in one tick: one hit
/// from every other entity that it overlaps.
pub open spec fn damage_on(policy: DamagePolicy, s: Seq<Entity>, k: int) -> int {
    damage_upto(policy, s, k, s.len() as int)
}

/// What one row of the scan adds up to for the entity at position `k`.
pub proof fn lemma_row_tally(policy: DamagePolicy, s: Seq<Entity>, i: int, j: int, k: int)
    requires
        0 <= i < j <= s.len() <= usize::MAX,
        0 <= k < s.len(),
    ensures
        tally(policy, s, row(s, i, j), k) == if k == i {
            damage_upto(policy, s, i, j) - damage_upto(policy, s, i, i + 1)
        } else if i < k < j {
            policy.hit(s[i], s[k])
        } else {
            0
        },
    decreases j - i,
{
    let f = |c: Contact| share(policy, s, c, k);
    if j > i + 1 {
        lemma_row_tally(policy, s, i, j - 1, k);
        if s[i].overlaps(s[j - 1]) {
            let c = Contact { first: i as usize, second: (j - 1) as usize };
            let r = row(s, i, j - 1).push(c);
            assert(r.drop_last() =~= row(s, i, j - 1));
            assert(r.last() == c);
            assert(total(r, f) == total(r.drop_last(), f) + f(r.last()));
        }
    }
}

/// Counting every contact once gives each entity exactly one hit from
/// every other entity that it overlaps.
pub proof fn lemma_tally_of_scan(policy: DamagePolicy, s: Seq<Entity>, i: int, k: int)
    requires
        0 <= i <= s.len() <= usize::MAX,
        0 <= k < s.len(),
    ensures
        tally(policy, s, contacts_upto(s, i), k) == if k < i {
            damage_on(policy, s, k)
        } else {
            damage_upto(policy, s, k, i)
        },
    decreases i,
{
    let f = |c: Contact| share(policy, s, c, k);
    if i > 0 {
        lemma_tally_of_scan(policy, s, i - 1, k);
        lemma_row_tally(policy, s, i - 1, s.len() as int, k);
        lemma_total_concat(contacts_upto(s, i - 1), row(s, i - 1, s.len() as int), f);
        lemma_hit_symmetric(policy, s[i - 1], s[k]);
    }
}

/// The damage of a whole scan is `damage_on`.
pub proof fn lemma_tally_is_damage(policy: DamagePolicy, s: Seq<Entity>, k: int)
    requires
        s.len() <= usize::MAX,
        0 <= k < s.len(),
    ensures
        tally(policy, s, contacts(s), k) == damage_on(policy, s, k),
{
    lemma_tally_of_scan(policy, s, s.len() as int, k);
}

/// The damage that each entity takes does not depend on the order in which
/// the contacts are counted.
pub proof fn lemma_contact_order_is_irrelevant(
    policy: DamagePolicy,
    s: Seq<Entity>,
    pairs: Seq<Contact>,
    shuffled: Seq<Contact>,
    k: int,
)
    requires
        pairs.to_multiset() == shuffled.to_multiset(),
    ensures
        tally(policy, s, pairs, k) == tally(policy, s, shuffled, k),
{
    lemma_total_permutation(pairs, shuffled, |c: Contact| share(policy, s, c, k));
}

/// The damage that the entity `e` takes among the entities `s`: one hit from
/// every entity under another id that it overlaps.
pub open spec fn harm(policy: DamagePolicy, e: Entity, s: Seq<Entity>) -> int {
    total(
        s,
        |x: Entity|
            if x.id != e.id {
                policy.hit(e, x)
            } else {
                0
            },
    )
}

/// Where no id occurs twice, leaving out an entity's own position is
/// leaving out its own id.
pub proof fn lemma_damage_upto_is_harm(policy: DamagePolicy, s: Seq<Entity>, k: int, n: int)
    requires
        valid_entities(s),
        0 <= k < s.len(),
        0 <= n <= s.len(),
    ensures
        damage_upto(policy, s, k, n) == harm(policy, s[k], s.take(n)),
    decreases n,
{
    let f = |x: Entity|
        if x.id != s[k].id {
            policy.hit(s[k], x)
        } else {
            0
        };
    if n > 0 {
        lemma_damage_upto_is_harm(policy, s, k, n - 1);
        assert(s.take(n).drop_last() =~= s.take(n - 1));
        assert(s.take(n).last() == s[n - 1]);
        assert(total(s.take(n), f) == total(s.take(n).drop_last(), f) + f(s.take(n).last()));
        if n - 1 < k {
            assert(s[n - 1].id != s[k].id);
        } else if k < n - 1 {
            assert(s[k].id != s[n - 1].id);
        }
    } else {
        assert(s.take(0).len() == 0);
    }
}

/// The damage of a tick is the harm that an entity takes among all entities.
pub proof fn lemma_damage_is_harm(policy: DamagePolicy, s: Seq<Entity>, k: int)
    requires
        valid_entities(s),
        0 <= k < s.len(),
    ensures
        damage_on(policy, s, k) == harm(policy, s[k], s),
{
    lemma_damage_upto_is_harm(policy, s, k, s.len() as int);
    assert(s.take(s.len() as int) =~= s);
}

/// The outcome of a tick's collisions does not depend on the order in which
/// the entities stand: in two worlds that hold the same entities, an entity
/// takes the same damage and is left with the same health.
pub proof fn lemma_entity_order_is_irrelevant(
    policy: DamagePolicy,
    s: Seq<Entity>,
    shuffled: Seq<Entity>,
    i: int,
    j: int,
)
    requires
        valid_entities(s),
        valid_entities(shuffled),
        s.to_multiset() == shuffled.to_multiset(),
        0 <= i < s.len(),
        0 <= j < shuffled.len(),
        s[i].id == shuffled[j].id,
    ensures
        s[i] == shuffled[j],
        damage_on(policy, s, i) == damage_on(policy, shuffled, j),
        collided(policy, s)[i] == collided(policy, shuffled)[j],
{
    to_multiset_contains(s, s[i]);
    to_multiset_contains(shuffled, s[i]);
    assert(s.contains(s[i]));
    let m = choose|m: int| 0 <= m < shuffled.len() && shuffled[m] == s[i];
    if m < j {
        assert(shuffled[m].id != shuffled[j].id);
    } else if j < m {
        assert(shuffled[j].id != shuffled[m].id);
    }
    lemma_damage_is_harm(policy, s, i);
    lemma_damage_is_harm(policy, shuffled, j);
    lemma_total_permutation(
        s,
        shuffled,
        |x: Entity|
            if x.id != s[i].id {
                policy.hit(s[i], x)
            } else {
                0
            },
    );
}

/// Health `h` after damage `d`, saturated.
pub fn drain(h: i64, d: i128) -> (r: i64)
    ensures
        r as int == clamp(h as int - d as int),
{
    let bound: i128 = 0x1_0000_0000_0000_0000;
    let capped: i128 = if d > bound {
        bound
    } else if d < -bound {
        -bound
    } else {
        d
    };
    saturate(h as i128 - capped)
}

impl Entity {
    /// This entity after damage `d`: its health is lowered by `d`, and an
    /// entity without health stays as it is.
    pub open spec fn hurt(self, d: int) -> Entity {
        match self.health {
            Some(h) => Entity { health: Some(clamp(h as int - d) as i64), ..self },
            None => self,
        }
    }

    pub fn take_damage(&self, d: i128) -> (e: Entity)
        ensures
            e == self.hurt(d as int),
            self.wf() ==> e.wf(),
    {
        match self.health {
            Some(h) => {
                let mut e: Entity = *self;
                e.health = Some(drain(h, d));
                e
            },
            None => *self,
        }
    }
}

/// The entities `s`, each after the damage that `d` holds for it.
pub open spec fn wounded(s: Seq<Entity>, d: Seq<i128>) -> Seq<Entity> {
    Seq::new(s.len(), |i: int| s[i].hurt(d[i] as int))
}

/// The entities `s` after one tick's collisions.
pub open spec fn collided(policy: DamagePolicy, s: Seq<Entity>) -> Seq<Entity> {
    Seq::new(s.len(), |i: int| s[i].hurt(damage_on(policy, s, i)))
}

impl World {
    /// Adds up, for every entity, the damage of the contacts `pairs`. No
    /// health is changed.
    pub fn accumulate(&self, policy: DamagePolicy, pairs: &Vec<Contact>) -> (damages: Vec<i128>)
        requires
            self.wf(),
            policy.wf(),
            contacts_in(pairs@, self@.len() as int),
        ensures
            damages@.len() == self@.len(),
            forall|k: int|
                0 <= k < self@.len() ==> #[trigger] damages@[k] as int == tally(
                    policy,
                    self@,
                    pairs@,
                    k,
                ),
    {
        let n: usize = self.len();
        let mut damages: Vec<i128> = Vec::new();
        let mut i: usize = 0;
        while i < n
            invariant
                i <= n,
                damages@.len() == i,
                forall|k: int| 0 <= k < i ==> #[trigger] damages@[k] == 0,
            decreases n - i,
        {
            damages.push(0);
            i += 1;
        }
        let mut t: usize = 0;
        while t < pairs.len()
            invariant
                self.wf(),
                policy.wf(),
                contacts_in(pairs@, self@.len() as int),
                n == self@.len(),
                damages@.len() == n,
                t <= pairs@.len(),
                forall|k: int|
                    0 <= k < n ==> #[trigger] damages@[k] as int == tally(
                        policy,
                        self@,
                        pairs@.take(t as int),
                        k,
                    ),
                forall|k: int|
                    0 <= k < n ==> -(t * 1_000_000_000_000_000_000) <= #[trigger] damages@[k] <= t
                        * 1_000_000_000_000_000_000,
            decreases pairs@.len() - t,
        {
            let c: Contact = pairs[t];
            let a: Entity = self.at(c.first);
            let b: Entity = self.at(c.second);
            let d: i64 = policy.damage(&a, &b);
            let ghost before = damages@;
            let first: i128 = damages[c.first];
            damages.set(c.first, first + d as i128);
            let second: i128 = damages[c.second];
            damages.set(c.second, second + d as i128);
            proof {
                let grown = pairs@.take(t as int + 1);
                assert(grown.drop_last() =~= pairs@.take(t as int));
                assert(grown.last() == c);
                assert forall|k: int| 0 <= k < n implies #[trigger] damages@[k] as int == tally(
                    policy,
                    self@,
                    grown,
                    k,
                ) by {
                    let f = |c: Contact| share(policy, self@, c, k);
                    assert(total(grown, f) == total(grown.drop_last(), f) + f(grown.last()));
                    assert(before[k] as int == tally(policy, self@, pairs@.take(t as int), k));
                }
            }
            t += 1;
        }
        assert(pairs@.take(t as int) =~= pairs@);
        damages
    }

    /// Lowers every entity's health by the damage that `damages` holds for it.
    pub fn apply_damage(&mut self, damages: &Vec<i128>)
        requires
            old(self).wf(),
            damages@.len() == old(self)@.len(),
        ensures
            final(self).wf(),
            final(self).fresh() == old(self).fresh(),
            final(self)@ == wounded(old(self)@, damages@),
    {
        let ghost before = self@;
        let n: usize = self.len();
        let mut i: usize = 0;
        while i < n
            invariant
                self.wf(),
                self.fresh() == old(self).fresh(),
                before == old(self)@,
                n == before.len(),
                self@.len() == n,
                damages@.len() == n,
                i <= n,
                forall|k: int| 0 <= k < i ==> #[trigger] self@[k] == before[k].hurt(damages@[k] as int),
                forall|k: int| i <= k < n ==> #[trigger] self@[k] == before[k],
            decreases n - i,
        {
            let e: Entity = self.at(i).take_damage(damages[i]);
            self.replace(i, e);
            i += 1;
        }
        assert(self@ =~= wounded(before, damages@));
    }

    /// Resolves one tick's collisions: finds the overlapping pairs, adds up
    /// their damage from the health that the entities had before the tick,
    /// and only then lowers each entity's health by its own sum. Returns
    /// that sum for every entity.
    pub fn handle_collisions(&mut self, policy: DamagePolicy) -> (damages: Vec<i128>)
        requires
            old(self).wf(),
            policy.wf(),
        ensures
            final(self).wf(),
            final(self).fresh() == old(self).fresh(),
            damages@.len() == old(self)@.len(),
            forall|k: int|
                0 <= k < old(self)@.len() ==> #[trigger] damages@[k] as int == damage_on(
                    policy,
                    old(self)@,
                    k,
                ),
            final(self)@ == collided(policy, old(self)@),
    {
        let n: usize = self.len();
        let pairs: Vec<Contact> = self.detect();
        proof {
            assert(self@.len() == n);
            lemma_contacts_sound(self@, self@.len() as int);
        }
        let damages: Vec<i128> = self.accumulate(policy, &pairs);
        proof {
            assert forall|k: int| 0 <= k < self@.len() implies #[trigger] damages@[k] as int
                == damage_on(policy, self@, k) by {
                lemma_tally_is_damage(policy, self@, k);
            }
        }
        self.apply_damage(&damages);
        assert(self@ =~= collided(policy, old(self)@));
        damages
    }
}

} // verus!
