//! Collision detection: which pairs of circular colliders overlap.

use vstd::prelude::*;
use crate::entity::{CircularCollider, Entity};
use crate::fixed::magnitude_of;
use crate::vector::Vec2;
use crate::world::World;

verus! {

/// Two entities whose colliders overlap, named by their positions in the
/// spawn order, the earlier one first.
#[derive(Clone, Copy, Debug, PartialEq, Eq, Structural)]
pub struct Contact {
    pub first: usize,
    pub second: usize,
}

impl CircularCollider {
    /// Two circles overlap when their centres are closer than the sum of
    /// their radii.
    pub open spec fn touches(
        self,
        self_position: Vec2,
        other: CircularCollider,
        other_position: Vec2,
    ) -> bool {
        self_position.dist_sq(other_position) < (self.radius + other.radius) * (self.radius
            + other.radius)
    }

    pub fn collides_with(
        &self,
        self_position: &Vec2,
        other: &CircularCollider,
        other_position: &Vec2,
    ) -> (hit: bool)
        requires
            self.wf(),
            other.wf(),
            self_position.wf(),
            other_position.wf(),
        ensures
            hit == self.touches(*self_position, *other, *other_position),
    {
        let reach: u128 = magnitude_of(self.radius + other.radius);
        assert(reach * reach <= 4_000_000_000_000_000_000_000_000_000_000_000_000)
            by (nonlinear_arith)
            requires
                0 <= reach <= 2_000_000_000_000_000_000,
        ;
        self_position.distance_squared(other_position) < reach * reach
    }
}

impl Entity {
    /// Both entities have a collider, and the two colliders overlap.
    pub open spec fn overlaps(self, other: Entity) -> bool {
        match (self.collider, other.collider) {
            (Some(a), Some(b)) => a.touches(self.position, b, other.position),
            _ => false,
        }
    }

    /// Tests `overlaps`.
    pub fn collides(&self, other: &Entity) -> (hit: bool)
        requires
            self.wf(),
            other.wf(),
        ensures
            hit == self.overlaps(*other),
    {
        match (self.collider, other.collider) {
            (Some(a), Some(b)) => a.collides_with(&self.position, &b, &other.position),
            _ => false,
        }
    }
}

/// Overlap does not depend on which of the two entities is asked.
pub proof fn lemma_overlap_symmetric(a: Entity, b: Entity)
    ensures
        a.overlaps(b) == b.overlaps(a),
{
    let dx: int = a.position.x - b.position.x;
    let dy: int = a.position.y - b.position.y;
    assert(dx * dx == (-dx) * (-dx)) by (nonlinear_arith);
    assert(dy * dy == (-dy) * (-dy)) by (nonlinear_arith);
    if a.collider is Some && b.collider is Some {
        let ra: int = a.collider->0.radius as int;
        let rb: int = b.collider->0.radius as int;
        assert(ra + rb == rb + ra);
    }
}

/// The contacts of entity `i` with the entities after it and before `j`, in
/// spawn order.
pub open spec fn row(s: Seq<Entity>, i: int, j: int) -> Seq<Contact>
    recommends
        0 <= i < j <= s.len() <= usize::MAX,
    decreases j - i,
{
    if j <= i + 1 {
        Seq::empty()
    } else if s[i].overlaps(s[j - 1]) {
        row(s, i, j - 1).push(Contact { first: i as usize, second: (j - 1) as usize })
    } else {
        row(s, i, j - 1)
    }
}

/// The contacts of the entities before `i`, each with the entities after it.
pub open spec fn contacts_upto(s: Seq<Entity>, i: int) -> Seq<Contact>
    decreases i,
{
    if i <= 0 {
        Seq::empty()
    } else {
        contacts_upto(s, i - 1) + row(s, i - 1, s.len() as int)
    }
}

/// Every overlapping pair of `s` once, in the order of an exhaustive scan.
pub open spec fn contacts(s: Seq<Entity>) -> Seq<Contact> {
    contacts_upto(s, s.len() as int)
}

/// Whether every contact names two positions of `s`, the earlier one first.
pub open spec fn contacts_in(pairs: Seq<Contact>, n: int) -> bool {
    forall|t: int| 0 <= t < pairs.len() ==> (#[trigger] pairs[t]).first < pairs[t].second < n
}

/// The entities of a row's contacts: the row's own entity and one after it
/// that overlaps it.
pub proof fn lemma_row_sound(s: Seq<Entity>, i: int, j: int)
    requires
        0 <= i < j <= s.len() <= usize::MAX,
    ensures
        forall|t: int|
            0 <= t < row(s, i, j).len() ==> (#[trigger] row(s, i, j)[t]).first == i && i < row(
                s,
                i,
                j,
            )[t].second < j && s[i].overlaps(s[row(s, i, j)[t].second as int]),
    decreases j - i,
{
    if j > i + 1 {
        lemma_row_sound(s, i, j - 1);
        let prev = row(s, i, j - 1);
        assert forall|t: int| 0 <= t < row(s, i, j).len() implies (#[trigger] row(
            s,
            i,
            j,
        )[t]).first == i && i < row(s, i, j)[t].second < j && s[i].overlaps(
            s[row(s, i, j)[t].second as int],
        ) by {
            if t < prev.len() {
                assert(row(s, i, j)[t] == prev[t]);
            }
        }
    }
}

/// Every contact that the scan reports names two overlapping entities, the
/// earlier one first.
pub proof fn lemma_contacts_sound(s: Seq<Entity>, i: int)
    requires
        0 <= i <= s.len() <= usize::MAX,
    ensures
        forall|t: int|
            0 <= t < contacts_upto(s, i).len() ==> (#[trigger] contacts_upto(s, i)[t]).first < i
                && contacts_upto(s, i)[t].first < contacts_upto(s, i)[t].second < s.len()
                && s[contacts_upto(s, i)[t].first as int].overlaps(
                s[contacts_upto(s, i)[t].second as int],
            ),
        contacts_in(contacts_upto(s, i), s.len() as int),
    decreases i,
{
    if i > 0 {
        lemma_contacts_sound(s, i - 1);
        lemma_row_sound(s, i - 1, s.len() as int);
        let prev = contacts_upto(s, i - 1);
        let last = row(s, i - 1, s.len() as int);
        assert forall|t: int| 0 <= t < contacts_upto(s, i).len() implies (#[trigger] contacts_upto(
            s,
            i,
        )[t]).first < i && contacts_upto(s, i)[t].first < contacts_upto(s, i)[t].second < s.len()
            && s[contacts_upto(s, i)[t].first as int].overlaps(
            s[contacts_upto(s, i)[t].second as int],
        ) by {
            if t < prev.len() {
                assert(contacts_upto(s, i)[t] == prev[t]);
            } else {
                assert(contacts_upto(s, i)[t] == last[t - prev.len()]);
            }
        }
    }
}

/// Whether the scan reports `a` before `b`.
pub open spec fn precedes(a: Contact, b: Contact) -> bool {
    a.first < b.first || (a.first == b.first && a.second < b.second)
}

/// A row reports its contacts in the order of the entities after its own.
pub proof fn lemma_row_ordered(s: Seq<Entity>, i: int, j: int)
    requires
        0 <= i < j <= s.len() <= usize::MAX,
    ensures
        forall|a: int, b: int|
            0 <= a < b < row(s, i, j).len() ==> precedes(
                #[trigger] row(s, i, j)[a],
                #[trigger] row(s, i, j)[b],
            ),
    decreases j - i,
{
    if j > i + 1 {
        lemma_row_ordered(s, i, j - 1);
        lemma_row_sound(s, i, j - 1);
        lemma_row_sound(s, i, j);
        let prev = row(s, i, j - 1);
        let now = row(s, i, j);
        assert forall|a: int, b: int| 0 <= a < b < now.len() implies precedes(
            #[trigger] now[a],
            #[trigger] now[b],
        ) by {
            assert(now[a] == prev[a]);
            if b < prev.len() {
                assert(now[b] == prev[b]);
            }
        }
    }
}

/// No pair is reported twice: the scan reports its contacts in strictly
/// rising order, first by the earlier entity and then by the later one.
pub proof fn lemma_contacts_once(s: Seq<Entity>, i: int)
    requires
        0 <= i <= s.len() <= usize::MAX,
    ensures
        forall|a: int, b: int|
            0 <= a < b < contacts_upto(s, i).len() ==> precedes(
                #[trigger] contacts_upto(s, i)[a],
                #[trigger] contacts_upto(s, i)[b],
            ),
        contacts_upto(s, i).no_duplicates(),
    decreases i,
{
    if i > 0 {
        lemma_contacts_once(s, i - 1);
        lemma_contacts_sound(s, i - 1);
        lemma_row_sound(s, i - 1, s.len() as int);
        lemma_row_ordered(s, i - 1, s.len() as int);
        let prev = contacts_upto(s, i - 1);
        let last = row(s, i - 1, s.len() as int);
        let now = contacts_upto(s, i);
        assert forall|a: int, b: int| 0 <= a < b < now.len() implies precedes(
            #[trigger] now[a],
            #[trigger] now[b],
        ) by {
            if b < prev.len() {
                assert(now[a] == prev[a] && now[b] == prev[b]);
            } else if a < prev.len() {
                assert(now[a] == prev[a] && now[b] == last[b - prev.len()]);
            } else {
                assert(now[a] == last[a - prev.len()] && now[b] == last[b - prev.len()]);
            }
        }
    }
    let all = contacts_upto(s, i);
    assert forall|a: int, b: int| 0 <= a < all.len() && 0 <= b < all.len() && a != b implies all[a]
        != all[b] by {
        if a < b {
            assert(precedes(all[a], all[b]));
        } else {
            assert(precedes(all[b], all[a]));
        }
    }
}

/// A row misses no contact of its entity with the entities after it.
pub proof fn lemma_row_complete(s: Seq<Entity>, i: int, j: int, m: int)
    requires
        0 <= i < m < j <= s.len() <= usize::MAX,
        s[i].overlaps(s[m]),
    ensures
        row(s, i, j).contains(Contact { first: i as usize, second: m as usize }),
    decreases j - i,
{
    let c = Contact { first: i as usize, second: m as usize };
    let now = row(s, i, j);
    if m == j - 1 {
        assert(now[now.len() - 1] == c);
    } else {
        lemma_row_complete(s, i, j - 1, m);
        let prev = row(s, i, j - 1);
        let t = choose|t: int| 0 <= t < prev.len() && prev[t] == c;
        assert(now[t] == c);
    }
}

/// The scan misses no pair: two entities whose colliders overlap are
/// reported, the earlier one first.
pub proof fn lemma_contacts_complete(s: Seq<Entity>, n: int, i: int, m: int)
    requires
        0 <= i < n <= s.len() <= usize::MAX,
        i < m < s.len(),
        s[i].overlaps(s[m]),
    ensures
        contacts_upto(s, n).contains(Contact { first: i as usize, second: m as usize }),
    decreases n,
{
    let c = Contact { first: i as usize, second: m as usize };
    let prev = contacts_upto(s, n - 1);
    let last = row(s, n - 1, s.len() as int);
    let now = contacts_upto(s, n);
    if i == n - 1 {
        lemma_row_complete(s, i, s.len() as int, m);
        let t = choose|t: int| 0 <= t < last.len() && last[t] == c;
        assert(now[prev.len() + t] == c);
    } else {
        lemma_contacts_complete(s, n - 1, i, m);
        let t = choose|t: int| 0 <= t < prev.len() && prev[t] == c;
        assert(now[t] == c);
    }
}

impl World {
    /// Finds every pair of entities whose colliders overlap. Each pair is
    /// reported once, the earlier entity first; the world is only read.
    pub fn detect(&self) -> (pairs: Vec<Contact>)
        requires
            self.wf(),
        ensures
            pairs@ == contacts(self@),
    {
        let n: usize = self.len();
        let mut pairs: Vec<Contact> = Vec::new();
        let mut i: usize = 0;
        while i < n
            invariant
                self.wf(),
                n == self@.len(),
                i <= n,
                pairs@ == contacts_upto(self@, i as int),
            decreases n - i,
        {
            let a: Entity = self.at(i);
            let mut j: usize = i + 1;
            assert(pairs@ =~= contacts_upto(self@, i as int) + row(self@, i as int, j as int));
            while j < n
                invariant
                    self.wf(),
                    n == self@.len(),
                    i < j <= n,
                    a == self@[i as int],
                    pairs@ == contacts_upto(self@, i as int) + row(self@, i as int, j as int),
                decreases n - j,
            {
                let b: Entity = self.at(j);
                if a.collides(&b) {
                    pairs.push(Contact { first: i, second: j });
                }
                j += 1;
                assert(pairs@ =~= contacts_upto(self@, i as int) + row(
                    self@,
                    i as int,
                    j as int,
                ));
            }
            i += 1;
        }
        pairs
    }
}

} // verus!
