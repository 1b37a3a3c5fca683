use vstd::prelude::*;

use crate::archetype::ArchetypeId;
use crate::storage::{TableId, TableRow};

verus! {

/// A handle to one entity: the index of its slot and the generation that the slot had
/// when the entity was made. A handle stays valid until its entity is freed.
#[derive(Debug, Clone, Copy, PartialEq, Eq, Hash, Structural)]
pub struct Entity {
    pub generation: u32,
    pub index: u32,
}

impl Entity {
    pub fn from(generation: u32, index: u32) -> (r: Entity)
        ensures
            r.generation == generation,
            r.index == index,
    {
        Entity { generation, index }
    }

    pub fn generation(&self) -> (r: u32)
        ensures
            r == self.generation,
    {
        self.generation
    }

    pub fn index(&self) -> (r: u32)
        ensures
            r == self.index,
    {
        self.index
    }
}

/// Where the data of a live entity is stored.
#[derive(Debug, Clone, Copy, PartialEq, Eq, Structural)]
pub struct EntityLocation {
    pub archetype_id: ArchetypeId,
    pub table_id: TableId,
    pub table_row: TableRow,
}

/// What a slot holds: the entity's location, or the next slot of the free list.
#[derive(Debug)]
enum Entry {
    Free { next_free: usize },
    Occupied { loc: EntityLocation },
}

#[derive(Debug)]
struct EntityEntry {
    entry: Entry,
    generation: u32,
}

/// A slot as the contracts see it: its generation, and the location if it is occupied.
pub type Slot = (u32, Option<EntityLocation>);

spec fn slot_of(e: EntityEntry) -> Slot {
    (e.generation, match e.entry {
        Entry::Occupied { loc } => Some(loc),
        Entry::Free { .. } => None,
    })
}

/// Number of occupied slots.
pub open spec fn live_count(s: Seq<Slot>) -> nat
    decreases s.len(),
{
    if s.len() == 0 {
        0
    } else {
        live_count(s.drop_last()) + if s.last().1 is Some {
            1nat
        } else {
            0nat
        }
    }
}

proof fn lemma_live_count_bound(s: Seq<Slot>)
    ensures
        live_count(s) <= s.len(),
    decreases s.len(),
{
    if s.len() > 0 {
        lemma_live_count_bound(s.drop_last());
    }
}

proof fn lemma_live_count_update(s: Seq<Slot>, i: int, x: Slot)
    requires
        0 <= i < s.len(),
    ensures
        live_count(s.update(i, x)) + (if s[i].1 is Some {
            1int
        } else {
            0int
        }) == live_count(s) + (if x.1 is Some {
            1int
        } else {
            0int
        }),
    decreases s.len(),
{
    let t = s.update(i, x);
    if i == s.len() - 1 {
        assert(t.drop_last() =~= s.drop_last());
    } else {
        assert(t.drop_last() =~= s.drop_last().update(i, x));
        lemma_live_count_update(s.drop_last(), i, x);
    }
}

proof fn lemma_live_count_push(s: Seq<Slot>, x: Slot)
    ensures
        live_count(s.push(x)) == live_count(s) + if x.1 is Some {
            1nat
        } else {
            0nat
        },
{
    assert(s.push(x).drop_last() =~= s);
}

proof fn lemma_free_slot_not_live(s: Seq<Slot>, i: int)
    requires
        0 <= i < s.len(),
        s[i].1 is None,
    ensures
        live_count(s) < s.len(),
    decreases s.len(),
{
    if i == s.len() - 1 {
        lemma_live_count_bound(s.drop_last());
    } else {
        lemma_free_slot_not_live(s.drop_last(), i);
    }
}

/// The allocator of entities: a vector of generational slots, with a list of the free slots
/// that can be used again.
pub struct Entities {
    entities: Vec<EntityEntry>,
    free_head: usize,
    len: usize,
    free: Ghost<Seq<usize>>,
}

impl Entities {
    /// The slots, by index.
    pub closed spec fn slots(&self) -> Seq<Slot> {
        self.entities@.map_values(|e: EntityEntry| slot_of(e))
    }

    /// The free slots that the next allocations use, the first one first.
    pub closed spec fn free_list(&self) -> Seq<usize> {
        self.free@
    }

    /// The free list is the chain that the slots link, and the live count is kept.
    pub closed spec fn chain_ok(&self) -> bool {
        let free = self.free@;
        &&& forall|k: int|
            0 <= k < free.len() ==> (#[trigger] free[k]) < self.entities@.len()
                && self.entities@[free[k] as int].entry == (Entry::Free {
                next_free: if k + 1 < free.len() {
                    free[k + 1]
                } else {
                    self.entities@.len() as usize
                },
            })
        &&& self.free_head == if free.len() > 0 {
            free[0]
        } else {
            self.entities@.len() as usize
        }
        &&& self.len == live_count(self.slots())
        &&& self.entities@.len() <= u32::MAX + 1
    }

    /// The allocator's invariant: the free list is a list of distinct free slots.
    pub open spec fn wf(&self) -> bool {
        &&& self.chain_ok()
        &&& self.free_list().no_duplicates()
        &&& forall|k: int|
            0 <= k < self.free_list().len() ==> (#[trigger] self.free_list()[k]) < self.slots().len()
                && self.slots()[self.free_list()[k] as int].1 is None
        &&& self.slots().len() <= u32::MAX + 1
    }

    /// The location of a live entity; none for a handle whose slot is free or has another
    /// generation.
    pub open spec fn lookup(&self, entity: Entity) -> Option<EntityLocation> {
        let i = entity.index as int;
        if i < self.slots().len() && self.slots()[i].0 == entity.generation {
            self.slots()[i].1
        } else {
            None
        }
    }

    pub open spec fn is_live(&self, entity: Entity) -> bool {
        self.lookup(entity) is Some
    }

    /// No slot is lost and no slot's generation goes down from `old` to `self`.
    pub open spec fn grows_from(&self, old: &Entities) -> bool {
        &&& old.slots().len() <= self.slots().len()
        &&& forall|i: int| 0 <= i < old.slots().len() ==> old.slots()[i].0 <= #[trigger] self.slots()[i].0
    }

    /// An index is left for one more entity.
    pub open spec fn can_alloc(&self) -> bool {
        self.free_list().len() > 0 || self.slots().len() <= u32::MAX
    }

    /// The entity that the next allocation makes.
    pub open spec fn next_entity(&self) -> Entity {
        if self.free_list().len() > 0 {
            Entity {
                generation: self.slots()[self.free_list()[0] as int].0,
                index: self.free_list()[0] as u32,
            }
        } else {
            Entity { generation: 0, index: self.slots().len() as u32 }
        }
    }

    /// The slots after the next entity is allocated at `loc`.
    pub open spec fn slots_after_alloc(&self, loc: EntityLocation) -> Seq<Slot> {
        let e = self.next_entity();
        if self.free_list().len() > 0 {
            self.slots().update(e.index as int, (e.generation, Some(loc)))
        } else {
            self.slots().push((0, Some(loc)))
        }
    }

    /// The free list after the next entity is allocated.
    pub open spec fn free_after_alloc(&self) -> Seq<usize> {
        if self.free_list().len() > 0 {
            self.free_list().drop_first()
        } else {
            self.free_list()
        }
    }

    pub fn new() -> (r: Entities)
        ensures
            r.wf(),
            r.slots() == Seq::<Slot>::empty(),
            r.free_list() == Seq::<usize>::empty(),
    {
        let r = Entities { entities: Vec::new(), free_head: 0, len: 0, free: Ghost(Seq::empty()) };
        assert(r.slots() =~= Seq::<Slot>::empty());
        r
    }

    /// The entity that the next allocation makes, or none when no index is left.
    pub fn peek_next(&self) -> (r: Option<Entity>)
        requires
            self.wf(),
        ensures
            r == if self.can_alloc() {
                Some(self.next_entity())
            } else {
                None::<Entity>
            },
    {
        if self.free_head < self.entities.len() {
            proof {
                if self.free@.len() == 0 {
                    assert(false);
                }
            }
            let generation = self.entities[self.free_head].generation;
            Some(Entity { generation, index: self.free_head as u32 })
        } else if self.entities.len() <= u32::MAX as usize {
            Some(Entity { generation: 0, index: self.entities.len() as u32 })
        } else {
            None
        }
    }

    /// The entity that the next allocation makes.
    pub(crate) fn upcoming(&self) -> (r: Entity)
        requires
            self.wf(),
            self.can_alloc(),
        ensures
            r == self.next_entity(),
    {
        match self.peek_next() {
            Some(e) => e,
            None => Entity { generation: 0, index: 0 },
        }
    }

    /// Marks the next entity live at `loc`.
    pub(crate) fn commit(&mut self, loc: EntityLocation) -> (r: Entity)
        requires
            old(self).wf(),
            old(self).can_alloc(),
        ensures
            final(self).wf(),
            final(self).grows_from(old(self)),
            r == old(self).next_entity(),
            final(self).slots() == old(self).slots_after_alloc(loc),
            final(self).free_list() == old(self).free_after_alloc(),
    {
        let ghost old_slots = self.slots();
        proof {
            lemma_live_count_bound(old_slots);
        }
        if self.free_head < self.entities.len() {
            let i = self.free_head;
            proof {
                if self.free@.len() == 0 {
                    assert(false);
                }
                assert(self.free@[0] == i);
            }
            let generation = self.entities[i].generation;
            let next = match self.entities[i].entry {
                Entry::Free { next_free } => next_free,
                Entry::Occupied { .. } => i,
            };
            proof {
                lemma_free_slot_not_live(old_slots, i as int);
                lemma_live_count_update(old_slots, i as int, (generation, Some(loc)));
            }
            self.entities.set(i, EntityEntry { entry: Entry::Occupied { loc }, generation });
            self.free_head = next;
            self.len = self.len + 1;
            let ghost old_free = self.free@;
            self.free = Ghost(old_free.drop_first());
            assert(self.slots() =~= old_slots.update(i as int, (generation, Some(loc))));
            proof {
                assert forall|k: int| 0 <= k < self.free@.len() implies (#[trigger] self.free@[k])
                    != i by {
                    assert(old_free[k + 1] == self.free@[k]);
                }
                assert forall|k: int|
                    0 <= k < self.free@.len() implies (#[trigger] self.free@[k])
                    < self.entities@.len() && self.entities@[self.free@[k] as int].entry == (
                Entry::Free {
                    next_free: if k + 1 < self.free@.len() {
                        self.free@[k + 1]
                    } else {
                        self.entities@.len() as usize
                    },
                }) by {
                    assert(old_free[k + 1] == self.free@[k]);
                }
            }
            Entity { generation, index: i as u32 }
        } else {
            let index = self.entities.len();
            self.entities.push(EntityEntry { entry: Entry::Occupied { loc }, generation: 0 });
            let n = self.entities.len();
            self.free_head = n;
            proof {
                lemma_live_count_push(old_slots, (0, Some(loc)));
            }
            self.len = self.len + 1;
            assert(self.slots() =~= old_slots.push((0, Some(loc))));
            Entity { generation: 0, index: index as u32 }
        }
    }

    /// Allocates an entity. The next entity is handed to `f`, which places its data and
    /// returns where; the entity becomes live only if `f` succeeds, and otherwise nothing
    /// changes. Fails also when no index is left.
    pub fn allocate<F: FnOnce(Entity) -> Result<EntityLocation, ()>>(&mut self, f: F) -> (r: Result<
        Entity,
        (),
    >)
        requires
            old(self).wf(),
            forall|e: Entity| f.requires((e,)),
        ensures
            final(self).wf(),
            final(self).grows_from(old(self)),
            r is Ok ==> {
                &&& old(self).can_alloc()
                &&& r->Ok_0 == old(self).next_entity()
                &&& exists|loc: EntityLocation|
                    #[trigger] f.ensures((r->Ok_0,), Ok(loc)) && final(self).slots()
                        == old(self).slots_after_alloc(loc)
                &&& final(self).free_list() == old(self).free_after_alloc()
            },
            r is Err ==> {
                &&& final(self).slots() == old(self).slots()
                &&& final(self).free_list() == old(self).free_list()
                &&& old(self).can_alloc() ==> f.ensures((old(self).next_entity(),), Err(()))
            },
    {
        match self.peek_next() {
            None => Err(()),
            Some(entity) => {
                let res = f(entity);
                match res {
                    Ok(loc) => {
                        let e = self.commit(loc);
                        assert(f.ensures((e,), Ok(loc)));
                        assert(exists|l: EntityLocation|
                            #[trigger] f.ensures((e,), Ok(l)) && self.slots()
                                == old(self).slots_after_alloc(l));
                        let r: Result<Entity, ()> = Ok(e);
                        assert(r->Ok_0 == e);
                        r
                    },
                    Err(u) => Err(u),
                }
            },
        }
    }

    /// The location of a live entity.
    pub fn get(&self, entity: Entity) -> (r: Option<EntityLocation>)
        requires
            self.wf(),
        ensures
            r == self.lookup(entity),
    {
        let i = entity.index as usize;
        if i < self.entities.len() {
            let e = &self.entities[i];
            if e.generation == entity.generation {
                match e.entry {
                    Entry::Occupied { loc } => Some(loc),
                    Entry::Free { .. } => None,
                }
            } else {
                None
            }
        } else {
            None
        }
    }

    /// Moves a live entity to another location; does nothing for a stale handle.
    pub fn set(&mut self, entity: Entity, location: EntityLocation)
        requires
            old(self).wf(),
        ensures
            final(self).wf(),
            final(self).grows_from(old(self)),
            final(self).free_list() == old(self).free_list(),
            final(self).slots() == if old(self).is_live(entity) {
                old(self).slots().update(entity.index as int, (entity.generation, Some(location)))
            } else {
                old(self).slots()
            },
    {
        let i = entity.index as usize;
        if i < self.entities.len() && self.entities[i].generation == entity.generation {
            if let Entry::Occupied { .. } = self.entities[i].entry {
                let ghost old_slots = self.slots();
                proof {
                    lemma_live_count_update(old_slots, i as int, (entity.generation, Some(location)));
                }
                self.entities.set(
                    i,
                    EntityEntry { entry: Entry::Occupied { loc: location }, generation: entity.generation },
                );
                assert(self.slots() =~= old_slots.update(i as int, (entity.generation, Some(location))));
                assert(forall|k: int| 0 <= k < self.free@.len() ==> #[trigger] self.free@[k] != i);
            }
        }
    }

    /// Frees a live entity and returns where it was. Its slot's generation goes up by one,
    /// so the handle is never valid again, and the slot goes to the head of the free list.
    /// A slot whose generation has reached its largest value is not used again. Does
    /// nothing for a stale handle.
    pub fn free(&mut self, entity: Entity) -> (r: Option<EntityLocation>)
        requires
            old(self).wf(),
        ensures
            final(self).wf(),
            final(self).grows_from(old(self)),
            r == old(self).lookup(entity),
            r is Some ==> {
                let i = entity.index as int;
                if entity.generation < u32::MAX {
                    &&& final(self).slots() == old(self).slots().update(
                        i,
                        ((entity.generation + 1) as u32, None),
                    )
                    &&& final(self).free_list() == seq![i as usize] + old(self).free_list()
                } else {
                    &&& final(self).slots() == old(self).slots().update(i, (entity.generation, None))
                    &&& final(self).free_list() == old(self).free_list()
                }
            },
            r is None ==> *final(self) == *old(self),
            r is None ==> final(self).slots() == old(self).slots() && final(self).free_list()
                == old(self).free_list(),
    {
        let i = entity.index as usize;
        if i < self.entities.len() && self.entities[i].generation == entity.generation {
            if let Entry::Occupied { loc } = self.entities[i].entry {
                let ghost old_slots = self.slots();
                let ghost old_free = self.free@;
                proof {
                    assert(forall|k: int| 0 <= k < old_free.len() ==> #[trigger] old_free[k] != i);
                }
                if entity.generation < u32::MAX {
                    let generation = entity.generation + 1;
                    proof {
                        lemma_live_count_update(old_slots, i as int, (generation, None));
                    }
                    self.entities.set(
                        i,
                        EntityEntry { entry: Entry::Free { next_free: self.free_head }, generation },
                    );
                    self.free_head = i;
                    self.free = Ghost(seq![i] + old_free);
                    assert(self.slots() =~= old_slots.update(i as int, (generation, None)));
                    proof {
                        assert forall|k: int| 0 <= k < self.free@.len() implies (#[trigger] self.free@[k])
                            < self.entities@.len() && self.entities@[self.free@[k] as int].entry
                            == (Entry::Free {
                            next_free: if k + 1 < self.free@.len() {
                                self.free@[k + 1]
                            } else {
                                self.entities@.len() as usize
                            },
                        }) by {
                            if k > 0 {
                                assert(self.free@[k] == old_free[k - 1]);
                            }
                        }
                        assert forall|a: int, b: int|
                            0 <= a < b < self.free@.len() implies self.free@[a] != self.free@[b] by {
                            if a > 0 {
                                assert(self.free@[a] == old_free[a - 1]);
                            }
                            assert(self.free@[b] == old_free[b - 1]);
                        }
                    }
                } else {
                    proof {
                        lemma_live_count_update(old_slots, i as int, (entity.generation, None));
                    }
                    self.entities.set(
                        i,
                        EntityEntry {
                            entry: Entry::Free { next_free: self.entities.len() },
                            generation: entity.generation,
                        },
                    );
                    assert(self.slots() =~= old_slots.update(i as int, (entity.generation, None)));
                }
                self.len = self.len - 1;
                return Some(loc);
            }
        }
        None
    }

    /// Generational safety: once the slot of a handle has a greater generation than the
    /// handle, the handle finds nothing, in that state and in every state that grows from
    /// it, and an entity made there at its index has a greater generation than it.
    pub proof fn lemma_generational_safety(freed: &Entities, later: &Entities, e: Entity)
        requires
            freed.wf(),
            later.wf(),
            (e.index as int) < freed.slots().len(),
            freed.slots()[e.index as int].0 > e.generation,
            later.grows_from(freed),
        ensures
            later.lookup(e) is None,
            later.can_alloc() && later.next_entity().index == e.index ==> later.next_entity().generation
                > e.generation,
    {
        let i = e.index as int;
        assert(later.slots()[i].0 >= freed.slots()[i].0);
        if later.can_alloc() && later.next_entity().index == e.index {
            if later.free_list().len() > 0 {
                assert(later.free_list()[0] < later.slots().len());
                assert(later.free_list()[0] as int == i);
            }
        }
    }

    /// Number of slots, live or free.
    pub fn len(&self) -> (r: usize)
        requires
            self.wf(),
        ensures
            r == self.slots().len(),
    {
        self.entities.len()
    }

    /// Number of live entities.
    pub fn alive(&self) -> (r: usize)
        requires
            self.wf(),
        ensures
            r == live_count(self.slots()),
    {
        self.len
    }
}

} // verus!
