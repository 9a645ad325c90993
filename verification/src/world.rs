//! The world: the live entities in spawn order, each under an id of its own.

use vstd::prelude::*;
use crate::entity::{Entity, Life};

verus! {

/// Why an entity could not be spawned.
#[derive(Clone, Copy, Debug, PartialEq, Eq, Structural)]
pub enum SpawnError {
    /// A component holds a value that cannot be stored.
    Invalid,
    /// Every id has been handed out.
    Exhausted,
}

/// Every entity is well formed and no id occurs twice.
pub open spec fn valid_entities(s: Seq<Entity>) -> bool {
    &&& forall|i: int| 0 <= i < s.len() ==> (#[trigger] s[i]).wf()
    &&& forall|i: int, j: int| 0 <= i < j < s.len() ==> (#[trigger] s[i]).id != (#[trigger] s[j]).id
}

/// The index at which `id` stands in `s`, if it stands there: the first
/// such index in `0..n`.
pub open spec fn index_of(s: Seq<Entity>, id: u64, n: int) -> Option<int>
    decreases n,
{
    if n <= 0 {
        None
    } else {
        match index_of(s, id, n - 1) {
            Some(i) => Some(i),
            None => if s[n - 1].id == id {
                Some(n - 1)
            } else {
                None
            },
        }
    }
}

/// What `index_of` finds is an index of `id`, and it finds one whenever there is one.
pub proof fn lemma_index_of(s: Seq<Entity>, id: u64, n: int)
    requires
        0 <= n <= s.len(),
    ensures
        index_of(s, id, n) matches Some(i) ==> 0 <= i < n && s[i].id == id,
        index_of(s, id, n) is None ==> forall|j: int| 0 <= j < n ==> (#[trigger] s[j]).id != id,
    decreases n,
{
    if n > 0 {
        lemma_index_of(s, id, n - 1);
    }
}

/// The live entities in spawn order.
pub struct World {
    entities: Vec<Entity>,
    next_id: u64,
}

impl View for World {
    type V = Seq<Entity>;

    closed spec fn view(&self) -> Seq<Entity> {
        self.entities@
    }
}

impl World {
    /// The id that the next spawned entity gets.
    pub closed spec fn fresh(&self) -> u64 {
        self.next_id
    }

    /// The entities are valid, and every id in use lies below `fresh`.
    pub open spec fn wf(&self) -> bool {
        &&& valid_entities(self@)
        &&& forall|i: int| 0 <= i < self@.len() ==> (#[trigger] self@[i]).id < self.fresh()
    }

    /// The entity under `id`, if it is in the world.
    pub open spec fn lookup(&self, id: u64) -> Option<Entity> {
        match index_of(self@, id, self@.len() as int) {
            Some(i) => Some(self@[i]),
            None => None,
        }
    }

    /// The life state of `id`: absent entities are `Destroyed`.
    pub open spec fn life_of(&self, id: u64) -> Life {
        match self.lookup(id) {
            Some(e) => e.life,
            None => Life::Destroyed,
        }
    }

    /// An empty world.
    pub fn new() -> (w: World)
        ensures
            w.wf(),
            w@.len() == 0,
            w.fresh() == 0,
    {
        World { entities: Vec::new(), next_id: 0 }
    }

    /// An empty world whose first entity gets the id `first`.
    pub fn starting_at(first: u64) -> (w: World)
        ensures
            w.wf(),
            w@.len() == 0,
            w.fresh() == first,
    {
        World { entities: Vec::new(), next_id: first }
    }

    pub fn len(&self) -> (n: usize)
        ensures
            n == self@.len(),
    {
        self.entities.len()
    }

    /// The entity at position `i` of the spawn order.
    pub fn at(&self, i: usize) -> (e: Entity)
        requires
            i < self@.len(),
        ensures
            e == self@[i as int],
    {
        self.entities[i]
    }

    /// Where `id` stands in the spawn order.
    pub fn position_of(&self, id: u64) -> (r: Option<usize>)
        ensures
            r is Some <==> index_of(self@, id, self@.len() as int) is Some,
            r matches Some(i) ==> index_of(self@, id, self@.len() as int) == Some(i as int)
                && i < self@.len() && self@[i as int].id == id,
    {
        let mut i: usize = 0;
        while i < self.entities.len()
            invariant
                0 <= i <= self.entities@.len(),
                index_of(self.entities@, id, i as int) is None,
            decreases self.entities@.len() - i,
        {
            if self.entities[i].id == id {
                proof {
                    lemma_index_stays(self.entities@, id, i as int + 1, self.entities@.len() as int);
                }
                return Some(i);
            }
            i += 1;
        }
        None
    }

    /// The entity under `id`, if it is in the world.
    pub fn get(&self, id: u64) -> (r: Option<Entity>)
        ensures
            r == self.lookup(id),
    {
        match self.position_of(id) {
            Some(i) => Some(self.entities[i]),
            None => None,
        }
    }

    /// The life state of `id`.
    pub fn life(&self, id: u64) -> (r: Life)
        ensures
            r == self.life_of(id),
    {
        match self.get(id) {
            Some(e) => e.life,
            None => Life::Destroyed,
        }
    }

    /// Adds `e` under a fresh id and returns that id. The world is unchanged
    /// when `e` is refused.
    pub fn spawn(&mut self, e: Entity) -> (r: Result<u64, SpawnError>)
        requires
            old(self).wf(),
        ensures
            final(self).wf(),
            !e.wf() ==> r == Err::<u64, SpawnError>(SpawnError::Invalid),
            e.wf() && old(self).fresh() == u64::MAX ==> r == Err::<u64, SpawnError>(
                SpawnError::Exhausted,
            ),
            e.wf() && old(self).fresh() < u64::MAX ==> r == Ok::<u64, SpawnError>(
                old(self).fresh(),
            ),
            r is Err ==> final(self)@ == old(self)@ && final(self).fresh() == old(self).fresh(),
            r is Ok ==> final(self)@ == old(self)@.push(Entity { id: old(self).fresh(), ..e })
                && final(self).fresh() == old(self).fresh() + 1,
    {
        if !e.is_valid() {
            return Err(SpawnError::Invalid);
        }
        if self.next_id == u64::MAX {
            return Err(SpawnError::Exhausted);
        }
        let id: u64 = self.next_id;
        let mut placed: Entity = e;
        placed.id = id;
        self.entities.push(placed);
        self.next_id = id + 1;
        Ok(id)
    }

    /// Puts `entities` in the place of the world's entities.
    pub(crate) fn restock(&mut self, entities: Vec<Entity>)
        requires
            old(self).wf(),
            valid_entities(entities@),
            forall|i: int| 0 <= i < entities@.len() ==> (#[trigger] entities@[i]).id < old(self).fresh(),
        ensures
            final(self).wf(),
            final(self)@ == entities@,
            final(self).fresh() == old(self).fresh(),
    {
        self.entities = entities;
    }

    /// Puts `e` in the place of the entity at position `i`, whose id it keeps.
    pub fn replace(&mut self, i: usize, e: Entity)
        requires
            old(self).wf(),
            i < old(self)@.len(),
            e.wf(),
            e.id == old(self)@[i as int].id,
        ensures
            final(self).wf(),
            final(self)@ == old(self)@.update(i as int, e),
            final(self).fresh() == old(self).fresh(),
    {
        self.entities.set(i, e);
    }
}

/// Once `index_of` has found `id`, a longer search finds the same index.
pub proof fn lemma_index_stays(s: Seq<Entity>, id: u64, n: int, m: int)
    requires
        0 <= n <= m <= s.len(),
        index_of(s, id, n) is Some,
    ensures
        index_of(s, id, m) == index_of(s, id, n),
    decreases m - n,
{
    if n < m {
        lemma_index_stays(s, id, n, m - 1);
    }
}

} // verus!
