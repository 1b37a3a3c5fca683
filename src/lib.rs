pub mod archetype;
pub mod component;
pub mod entity;
pub mod query;
pub mod storage;

use vstd::prelude::*;

use std::any::TypeId;

use crate::archetype::{Archetype, ArchetypeId, Archetypes};
use crate::component::{canonical_parts, Bundle, Component, ComponentId, Components};
use crate::entity::{Entities, Entity, EntityLocation};
use crate::query::{Query, QueryMut, Queryable};
use crate::storage::{Table, TableId, TableRow, Tables};

verus! {

/// Where each value of a bundle comes from: the bytes that `bundle_map` gives an id are
/// those of some part with that id.
proof fn lemma_bundle_map_source(values: Seq<(ComponentId, Vec<u8>)>, id: ComponentId)
    requires
        crate::component::bundle_map(values).contains_key(id),
    ensures
        exists|k: int| 0 <= k < values.len() && (#[trigger] values[k]).0 == id && crate::component::bundle_map(values)[id] == values[k].1@,
    decreases values.len(),
{
    if values.last().0 == id {
        assert(values[values.len() - 1].0 == id);
    } else {
        lemma_bundle_map_source(values.drop_last(), id);
        let k = choose|k: int| 0 <= k < values.drop_last().len() && (#[trigger] values.drop_last()[k]).0 == id
            && crate::component::bundle_map(values.drop_last())[id] == values.drop_last()[k].1@;
        assert(values[k] == values.drop_last()[k]);
    }
}

/// The store: entities, the registry of component types, and the tables and archetypes
/// that hold the entities' values.
pub struct World {
    entities: Entities,
    archetypes: Archetypes,
    components: Components,
    tables: Tables,
}

impl World {
    pub closed spec fn allocator(&self) -> Entities {
        self.entities
    }

    pub closed spec fn registry(&self) -> Components {
        self.components
    }

    pub closed spec fn table_seq(&self) -> Seq<Table> {
        self.tables.tables()
    }

    /// The number of rows of each table.
    pub open spec fn table_lens(&self) -> Seq<nat> {
        self.table_seq().map_values(|t: Table| t.spec_len())
    }

    pub closed spec fn archetype_seq(&self) -> Seq<Archetype> {
        self.archetypes.archetypes()
    }

    /// Where a live entity is stored; none for an unknown or stale handle.
    pub open spec fn location(&self, e: Entity) -> Option<EntityLocation> {
        self.allocator().lookup(e)
    }

    /// The values of a live entity: each of its components with the bytes of its value.
    pub open spec fn data(&self, e: Entity) -> Option<Map<ComponentId, Seq<u8>>> {
        match self.location(e) {
            Some(l) => Some(self.table_seq()[l.table_id.0 as int].row_data(l.table_row.0 as int)),
            None => None,
        }
    }

    /// `after` is `self` with one row added at `l`: the table there has exactly the
    /// components `ids`, in canonical order; it is the table of `self` with that key, grown
    /// by the row, or else a new table after all of `self`'s; the archetype is the table's;
    /// every other table is unchanged.
    pub open spec fn spawned_at(&self, l: EntityLocation, ids: Set<ComponentId>, after: World) -> bool {
        let t = l.table_id.0 as int;
        &&& l.archetype_id.0 == l.table_id.0
        &&& crate::storage::is_canonical(after.table_seq()[t].key())
        &&& forall|id: ComponentId| after.table_seq()[t].key().contains(id) <==> ids.contains(id)
        &&& after.archetype_seq().len() == after.table_seq().len()
        &&& t < self.table_seq().len() ==> {
            &&& after.table_seq().len() == self.table_seq().len()
            &&& after.table_seq()[t].key() == self.table_seq()[t].key()
            &&& l.table_row.0 == self.table_seq()[t].spec_len()
            &&& after.table_seq()[t].spec_len() == self.table_seq()[t].spec_len() + 1
        }
        &&& t >= self.table_seq().len() ==> {
            &&& t == self.table_seq().len()
            &&& after.table_seq().len() == self.table_seq().len() + 1
            &&& l.table_row.0 == 0
            &&& after.table_seq()[t].spec_len() == 1
            &&& forall|u: int| 0 <= u < self.table_seq().len() ==> #[trigger] self.table_seq()[u].key() != after.table_seq()[t].key()
        }
        &&& forall|u: int| 0 <= u < self.table_seq().len() && u != t ==> #[trigger] after.table_seq()[u] == self.table_seq()[u]
    }

    /// One more entity can be made.
    pub open spec fn can_spawn(&self) -> bool {
        self.allocator().can_alloc()
    }

    /// Parts that the store can take: each id is registered and has the recorded size.
    pub open spec fn parts_fit(&self, values: Seq<(ComponentId, Vec<u8>)>) -> bool {
        forall|k: int|
            0 <= k < values.len() ==> self.registry().is_registered((#[trigger] values[k]).0)
                && values[k].1@.len() == self.registry().size_of(values[k].0)
    }

    closed spec fn loc_ok(&self, l: EntityLocation) -> bool {
        &&& l.archetype_id.0 == l.table_id.0
        &&& l.table_id.0 < self.tables.spec_len()
        &&& l.table_row.0 < self.tables.tables()[l.table_id.0 as int].spec_len()
    }

    closed spec fn at(t: int, r: int) -> EntityLocation {
        EntityLocation {
            archetype_id: ArchetypeId(t as usize),
            table_id: TableId(t as usize),
            table_row: TableRow(r as usize),
        }
    }

    /// The parts agree: archetype `a` is bound to table `a` and mirrors its key and rows,
    /// every live entity's location holds it, and every row's entity is live there.
    pub closed spec fn wf(&self) -> bool {
        &&& self.entities.wf()
        &&& self.components.wf()
        &&& self.tables.wf(&self.components)
        &&& self.archetypes.wf()
        &&& self.tables.spec_len() == self.archetypes.spec_len()
        &&& forall|a: int|
            0 <= a < self.archetypes.spec_len() ==> {
                &&& (#[trigger] self.archetypes.archetypes()[a]).spec_table().0 == a
                &&& self.archetypes.archetypes()[a].key() == self.tables.tables()[a].key()
                &&& self.archetypes.archetypes()[a].entities() == self.tables.tables()[a].entities()
            }
        &&& forall|i: int|
            0 <= i < self.entities.slots().len() && (#[trigger] self.entities.slots()[i]).1 is Some ==> {
                let l = self.entities.slots()[i].1->Some_0;
                &&& self.loc_ok(l)
                &&& self.tables.tables()[l.table_id.0 as int].entities()[l.table_row.0 as int] == (Entity {
                    generation: self.entities.slots()[i].0,
                    index: i as u32,
                })
            }
        &&& forall|t: int, r: int|
            0 <= t < self.tables.spec_len() && 0 <= r < self.tables.tables()[t].spec_len() ==> {
                let e = #[trigger] self.tables.tables()[t].entities()[r];
                &&& (e.index as int) < self.entities.slots().len()
                &&& self.entities.slots()[e.index as int] == (e.generation, Some(Self::at(t, r)))
            }
    }

    pub fn new() -> (r: World)
        ensures
            r.wf(),
            r.registry().spec_len() == 0,
            r.allocator().slots().len() == 0,
            r.allocator().free_list().len() == 0,
            r.table_seq().len() == 0,
            r.archetype_seq().len() == 0,
            r.can_spawn(),
            r.allocator().next_entity() == (Entity { generation: 0, index: 0 }),
            forall|e: Entity| r.data(e) is None,
    {
        let r = World {
            entities: Entities::new(),
            archetypes: Archetypes::new(),
            components: Components::new(),
            tables: Tables::new(),
        };
        assert forall|e: Entity| r.data(e) is None by {}
        r
    }

    /// Makes an entity that holds the given values, given as component ids with the bytes
    /// of each value; where an id comes twice, the later bytes are kept. The entity goes
    /// into the table and archetype of its set of components, made on first use.
    pub fn spawn_values(&mut self, values: Vec<(ComponentId, Vec<u8>)>) -> (r: Entity)
        requires
            old(self).wf(),
            old(self).can_spawn(),
            old(self).parts_fit(values@),
        ensures
            final(self).wf(),
            r == old(self).allocator().next_entity(),
            old(self).location(r) is None,
            final(self).data(r) == Some(crate::component::bundle_map(values@)),
            forall|e: Entity| e != r ==> #[trigger] final(self).data(e) == old(self).data(e),
            forall|e: Entity| e != r ==> #[trigger] final(self).location(e) == old(self).location(e),
            final(self).registry() == old(self).registry(),
            final(self).allocator().grows_from(&old(self).allocator()),
            final(self).allocator().slots().len() <= old(self).allocator().slots().len() + 1,
            final(self).allocator().slots().len() == old(self).allocator().slots_after_alloc(final(self).location(r)->Some_0).len(),
            final(self).allocator().free_list() == old(self).allocator().free_after_alloc(),
            final(self).location(r) is Some,
            old(self).spawned_at(final(self).location(r)->Some_0, crate::component::bundle_map(values@).dom(), *final(self)),
    {
        let (ids, vals) = canonical_parts(&values);
        let ghost m = crate::component::bundle_map(values@);
        proof {
            assert forall|j: int| 0 <= j < ids@.len() implies self.components.is_registered(#[trigger] ids@[j])
                && vals@[j]@.len() == self.components.size_of(ids@[j]) by {
                assert(ids@.contains(ids@[j]));
                lemma_bundle_map_source(values@, ids@[j]);
                let k = choose|k: int| 0 <= k < values@.len() && (#[trigger] values@[k]).0 == ids@[j] && m[ids@[j]] == values@[k].1@;
            }
        }
        let entity = self.entities.upcoming();
        let ghost w0 = *self;
        let tid = self.tables.get_id_or_insert(ids.as_slice(), &self.components);
        let ghost w1 = *self;
        proof {
            if tid.0 < w0.tables.spec_len() {
                assert(w0.archetypes.archetypes()[tid.0 as int].key() == ids@);
            } else {
                assert forall|a: int| 0 <= a < w0.archetypes.spec_len() implies (#[trigger] w0.archetypes.archetypes()[a]).key() != ids@ by {
                    assert(w0.tables.tables()[a].key() == w0.archetypes.archetypes()[a].key());
                    assert(w0.tables.find(ids@) is None);
                }
            }
        }
        let aid = self.archetypes.get_id_or_insert(tid, ids.as_slice());
        proof {
            if tid.0 < w0.tables.spec_len() {
                assert(w0.archetypes.find(ids@) is Some);
                assert(w0.archetypes.archetypes()[aid.0 as int].key() == ids@);
                if aid.0 != tid.0 {
                    assert(w0.archetypes.archetypes()[aid.0 as int].key() != w0.archetypes.archetypes()[tid.0 as int].key());
                }
            }
            assert(aid.0 == tid.0);
        }
        let ghost w2 = *self;
        proof {
            let tb = w2.tables.tables()[tid.0 as int];
            assert(tb.sizes_match(&w2.components));
            assert forall|j: int| 0 <= j < vals@.len() implies (#[trigger] vals@[j])@.len() == tb.item_size(j) by {
                assert(tb.key()[j] == ids@[j]);
            }
        }
        let row = self.tables.allocate(tid, entity, &vals, Ghost(&self.components));
        let ghost w3 = *self;
        let loc = self.archetypes.allocate(aid, entity, row);
        let e = self.entities.commit(loc);
        proof {
            let i = entity.index as int;
            let t = tid.0 as int;
            let old_tb = w2.tables.tables()[t];
            let new_tb = self.tables.tables()[t];
            let n = old_tb.spec_len() as int;
            assert(loc == Self::at(t, n));
            assert(w0.entities.slots()[i].1 is None || i == w0.entities.slots().len()) by {
                if w0.entities.free_list().len() > 0 {
                    assert(w0.entities.free_list()[0] < w0.entities.slots().len());
                }
            }
            Table::lemma_row_data_pushed(old_tb, new_tb, vals@);
            // alignment of archetypes and tables
            assert forall|a: int| 0 <= a < self.archetypes.spec_len() implies {
                &&& (#[trigger] self.archetypes.archetypes()[a]).spec_table().0 == a
                &&& self.archetypes.archetypes()[a].key() == self.tables.tables()[a].key()
                &&& self.archetypes.archetypes()[a].entities() == self.tables.tables()[a].entities()
            } by {
                if a < w0.archetypes.spec_len() {
                    if w0.archetypes.spec_len() < w2.archetypes.spec_len() {
                        assert(w2.archetypes.archetypes().drop_last()[a] == w2.archetypes.archetypes()[a]);
                    }
                    assert(w2.archetypes.archetypes()[a] == w0.archetypes.archetypes()[a]);
                    assert(w2.tables.tables()[a] == w0.tables.tables()[a]);
                }
                if a != t {
                    assert(self.archetypes.archetypes()[a] == w2.archetypes.archetypes()[a]);
                    assert(self.tables.tables()[a] == w2.tables.tables()[a]);
                }
            }
            // w2 keeps the old invariant over slots, with more (empty) tables perhaps
            assert forall|j: int|
                0 <= j < self.entities.slots().len() && (#[trigger] self.entities.slots()[j]).1 is Some implies {
                    let l = self.entities.slots()[j].1->Some_0;
                    &&& self.loc_ok(l)
                    &&& self.tables.tables()[l.table_id.0 as int].entities()[l.table_row.0 as int] == (Entity {
                        generation: self.entities.slots()[j].0,
                        index: j as u32,
                    })
                } by {
                if j != i {
                    assert(self.entities.slots()[j] == w0.entities.slots()[j]);
                    let l = w0.entities.slots()[j].1->Some_0;
                    assert(w0.loc_ok(l));
                    assert(w0.tables.tables()[l.table_id.0 as int] == w2.tables.tables()[l.table_id.0 as int]);
                    if l.table_id.0 == t {
                        assert(new_tb.entities()[l.table_row.0 as int] == old_tb.entities()[l.table_row.0 as int]);
                    } else {
                        assert(self.tables.tables()[l.table_id.0 as int] == w2.tables.tables()[l.table_id.0 as int]);
                    }
                } else {
                    assert(new_tb.entities()[n] == entity);
                }
            }
            assert forall|tt: int, r: int|
                0 <= tt < self.tables.spec_len() && 0 <= r < self.tables.tables()[tt].spec_len() implies {
                    let x = #[trigger] self.tables.tables()[tt].entities()[r];
                    &&& (x.index as int) < self.entities.slots().len()
                    &&& self.entities.slots()[x.index as int] == (x.generation, Some(Self::at(tt, r)))
                } by {
                if tt == t && r == n {
                    assert(self.tables.tables()[tt].entities()[r] == entity);
                } else {
                    let x = self.tables.tables()[tt].entities()[r];
                    if tt < w0.tables.spec_len() {
                        assert(w2.tables.tables()[tt] == w0.tables.tables()[tt]);
                        if tt == t {
                            assert(x == old_tb.entities()[r]);
                        } else {
                            assert(self.tables.tables()[tt] == w2.tables.tables()[tt]);
                        }
                        assert(w0.entities.slots()[x.index as int] == (x.generation, Some(Self::at(tt, r))));
                        assert(x.index as int != i);
                        assert(self.entities.slots()[x.index as int] == w0.entities.slots()[x.index as int]);
                    } else {
                        assert(tt == t);
                        assert(old_tb.spec_len() == 0);
                    }
                }
            }
            // what each entity holds
            assert(self.data(e) == Some(m)) by {
                let d = new_tb.row_data(n);
                assert forall|id: ComponentId| #[trigger] d.contains_key(id) <==> m.contains_key(id) by {
                    assert(old_tb.key() == ids@);
                }
                assert forall|id: ComponentId| #[trigger] d.contains_key(id) implies d[id] == m[id] by {
                    let j = choose|j: int| 0 <= j < ids@.len() && ids@[j] == id;
                    assert(old_tb.key()[j] == id);
                }
                assert(d =~= m);
            }
            assert forall|x: Entity| x != e implies #[trigger] self.data(x) == w0.data(x) by {
                let xi = x.index as int;
                if xi == i {
                    if xi < w0.entities.slots().len() {
                        assert(w0.entities.slots()[xi].1 is None);
                    }
                    assert(self.location(x) is None);
                } else if w0.location(x) is Some {
                    assert(self.entities.slots()[xi] == w0.entities.slots()[xi]);
                    let l = w0.location(x)->Some_0;
                    assert(w0.entities.slots()[xi].1 is Some);
                    assert(w0.loc_ok(l));
                    let lt = l.table_id.0 as int;
                    assert(w2.tables.tables()[lt] == w0.tables.tables()[lt]);
                    if lt == t {
                        Table::lemma_row_data_push(old_tb, new_tb, vals@, l.table_row.0 as int);
                    } else {
                        assert(self.tables.tables()[lt] == w2.tables.tables()[lt]);
                    }
                } else {
                    if xi < w0.entities.slots().len() {
                        assert(self.entities.slots()[xi] == w0.entities.slots()[xi]);
                    }
                }
            }
        }
        e
    }

    /// The entity in the last row of a live entity's table.
    pub open spec fn last_in_table(&self, l: EntityLocation) -> Entity {
        self.table_seq()[l.table_id.0 as int].entities().last()
    }

    /// Releases a live entity and its values; does nothing for an unknown or stale handle.
    /// The entity in the last row of its table moves into the row it leaves, and the
    /// allocator records that; every other entity keeps its location and values. When its
    /// generation can grow, the next entity made reuses its index with the next generation.
    pub fn despawn(&mut self, entity: Entity)
        requires
            old(self).wf(),
        ensures
            final(self).wf(),
            final(self).registry() == old(self).registry(),
            final(self).data(entity) is None,
            forall|e: Entity| e != entity ==> #[trigger] final(self).data(e) == old(self).data(e),
            final(self).allocator().grows_from(&old(self).allocator()),
            old(self).location(entity) is Some && entity.generation < u32::MAX ==> final(self).allocator().slots()[entity.index as int].0
                > entity.generation,
            old(self).location(entity) is None ==> *final(self) == *old(self),
            final(self).table_seq().len() == old(self).table_seq().len(),
            final(self).archetype_seq().len() == old(self).archetype_seq().len(),
            final(self).allocator().slots().len() == old(self).allocator().slots().len(),
            old(self).location(entity) matches Some(l) ==> {
                let moved = old(self).last_in_table(l);
                let t = l.table_id.0 as int;
                &&& final(self).table_seq()[t].spec_len() + 1 == old(self).table_seq()[t].spec_len()
                &&& final(self).table_seq()[t].key() == old(self).table_seq()[t].key()
                &&& forall|u: int| 0 <= u < old(self).table_seq().len() && u != t ==> #[trigger] final(self).table_seq()[u]
                    == old(self).table_seq()[u]
                &&& moved != entity ==> old(self).location(moved) == Some(EntityLocation {
                    table_row: TableRow((old(self).table_seq()[t].spec_len() - 1) as usize),
                    ..l
                })
                &&& moved != entity ==> final(self).location(moved) == Some(l)
                &&& forall|e: Entity|
                    e != entity && e != moved ==> #[trigger] final(self).location(e) == old(self).location(e)
                &&& entity.generation < u32::MAX ==> final(self).allocator().next_entity() == (Entity {
                    generation: (entity.generation + 1) as u32,
                    index: entity.index,
                })
                &&& entity.generation < u32::MAX ==> final(self).can_spawn()
            },
    {
        let ghost w0 = *self;
        if let Some(loc) = self.entities.free(entity) {
            let ghost w1 = *self;
            let ghost i = entity.index as int;
            let ghost t = loc.table_id.0 as int;
            let ghost row = loc.table_row.0 as int;
            let ghost old_tb = w0.tables.tables()[t];
            let ghost n = old_tb.spec_len() as int;
            let ghost moved = old_tb.entities().last();
            proof {
                assert(w0.entities.slots()[i].1 is Some);
                assert(w0.entities.slots()[i] == (entity.generation, Some(loc)));
                assert(w0.loc_ok(loc));
                assert(loc == Self::at(t, row));
                old_tb.lemma_len_bound();
                w0.tables.lemma_len_bound();
                assert(old_tb.entities()[row] == entity);
                assert(w0.archetypes.archetypes()[t].entities() == old_tb.entities());
                assert(w0.entities.slots()[moved.index as int] == (moved.generation, Some(Self::at(t, n - 1))));
                if row != n - 1 {
                    assert(Self::at(t, n - 1).table_row != loc.table_row);
                    assert(moved.index as int != i);
                    assert(w1.entities.slots()[moved.index as int] == w0.entities.slots()[moved.index as int]);
                }
            }
            let swapped = self.archetypes.swap_remove(loc.archetype_id, loc.table_row);
            let ghost w2 = *self;
            if let Some(m) = swapped {
                self.entities.set(m, loc);
            }
            let ghost w3 = *self;
            let _ = self.tables.swap_remove(loc.table_id, loc.table_row, Ghost(&self.components));
            proof {
                let new_tb = self.tables.tables()[t];
                assert(loc == Self::at(t, row));
                assert forall|a: int| 0 <= a < self.archetypes.spec_len() implies {
                    &&& (#[trigger] self.archetypes.archetypes()[a]).spec_table().0 == a
                    &&& self.archetypes.archetypes()[a].key() == self.tables.tables()[a].key()
                    &&& self.archetypes.archetypes()[a].entities() == self.tables.tables()[a].entities()
                } by {
                    if a != t {
                        assert(self.archetypes.archetypes()[a] == w0.archetypes.archetypes()[a]);
                        assert(self.tables.tables()[a] == w0.tables.tables()[a]);
                    }
                }
                // rows of distinct entities have distinct slots
                assert forall|r: int| 0 <= r < n && r != row implies (#[trigger] old_tb.entities()[r]).index as int != i by {
                    assert(w0.entities.slots()[old_tb.entities()[r].index as int] == (old_tb.entities()[r].generation, Some(Self::at(t, r))));
                    assert(w0.entities.slots()[i] == (entity.generation, Some(loc)));
                    assert(Self::at(t, r).table_row != loc.table_row);
                }
                assert forall|r: int| 0 <= r < n && r != n - 1 implies (#[trigger] old_tb.entities()[r]).index != moved.index by {
                    assert(w0.entities.slots()[old_tb.entities()[r].index as int] == (old_tb.entities()[r].generation, Some(Self::at(t, r))));
                }
                assert forall|j: int|
                    0 <= j < self.entities.slots().len() && (#[trigger] self.entities.slots()[j]).1 is Some implies {
                        let l = self.entities.slots()[j].1->Some_0;
                        &&& self.loc_ok(l)
                        &&& self.tables.tables()[l.table_id.0 as int].entities()[l.table_row.0 as int] == (Entity {
                            generation: self.entities.slots()[j].0,
                            index: j as u32,
                        })
                    } by {
                    assert(j != i);
                    if row != n - 1 && j == moved.index as int {
                        assert(self.entities.slots()[j] == (moved.generation, Some(loc)));
                        assert(new_tb.entities()[row] == moved);
                    } else {
                        assert(self.entities.slots()[j] == w0.entities.slots()[j]);
                        let l = w0.entities.slots()[j].1->Some_0;
                        assert(w0.loc_ok(l));
                        let lt = l.table_id.0 as int;
                        let lr = l.table_row.0 as int;
                        assert(w0.tables.tables()[lt].entities()[lr].index == j);
                        if lt == t {
                            assert(lr != row);
                            assert(lr != n - 1);
                            assert(new_tb.entities()[lr] == old_tb.entities()[lr]);
                        } else {
                            assert(self.tables.tables()[lt] == w0.tables.tables()[lt]);
                        }
                    }
                }
                assert forall|tt: int, r: int|
                    0 <= tt < self.tables.spec_len() && 0 <= r < self.tables.tables()[tt].spec_len() implies {
                        let x = #[trigger] self.tables.tables()[tt].entities()[r];
                        &&& (x.index as int) < self.entities.slots().len()
                        &&& self.entities.slots()[x.index as int] == (x.generation, Some(Self::at(tt, r)))
                    } by {
                    let x = self.tables.tables()[tt].entities()[r];
                    if tt == t {
                        if r == row {
                            assert(x == moved);
                            assert(row != n - 1);
                        } else {
                            assert(x == old_tb.entities()[r]);
                            assert(x.index as int != i);
                            assert(x.index != moved.index);
                            assert(self.entities.slots()[x.index as int] == w0.entities.slots()[x.index as int]);
                        }
                    } else {
                        assert(self.tables.tables()[tt] == w0.tables.tables()[tt]);
                        assert(w0.entities.slots()[x.index as int] == (x.generation, Some(Self::at(tt, r))));
                        assert(Self::at(tt, r).table_id != loc.table_id);
                        assert(x.index as int != i);
                        if row != n - 1 {
                            assert(x.index != moved.index);
                        }
                        assert(self.entities.slots()[x.index as int] == w0.entities.slots()[x.index as int]);
                    }
                }
                assert forall|x: Entity| x != entity implies #[trigger] self.data(x) == w0.data(x) by {
                    let xi = x.index as int;
                    if xi == i {
                        assert(self.location(x) is None);
                        assert(w0.location(x) is None);
                    } else if row != n - 1 && x == moved {
                        Table::lemma_row_data_swap(old_tb, new_tb, row, row);
                    } else if w0.location(x) is Some {
                        let l = w0.location(x)->Some_0;
                        assert(w0.loc_ok(l));
                        assert(w0.tables.tables()[l.table_id.0 as int].entities()[l.table_row.0 as int] == x);
                        if xi == moved.index as int && row != n - 1 {
                            assert(w0.entities.slots()[xi].0 == moved.generation);
                            assert(x == moved);
                        }
                        assert(self.entities.slots()[xi] == w0.entities.slots()[xi]);
                        let lt = l.table_id.0 as int;
                        if lt == t {
                            let lr = l.table_row.0 as int;
                            assert(lr != row);
                            assert(lr != n - 1);
                            Table::lemma_row_data_swap(old_tb, new_tb, row, lr);
                        } else {
                            assert(self.tables.tables()[lt] == w0.tables.tables()[lt]);
                        }
                    } else {
                        if xi == moved.index as int && row != n - 1 {
                            assert(w0.entities.slots()[xi].0 == moved.generation);
                            assert(x.generation != moved.generation);
                        }
                        if xi < w0.entities.slots().len() && !(xi == moved.index as int && row != n - 1) {
                            assert(self.entities.slots()[xi] == w0.entities.slots()[xi]);
                        }
                    }
                }
                assert forall|x: Entity| x != entity && x != moved implies #[trigger] self.location(x) == w0.location(x) by {
                    let xi = x.index as int;
                    if xi == i {
                        assert(w0.location(x) is None);
                    } else if xi == moved.index as int && row != n - 1 {
                        assert(x.generation != moved.generation);
                    } else if xi < w0.entities.slots().len() {
                        assert(self.entities.slots()[xi] == w0.entities.slots()[xi]);
                    }
                }
                if entity.generation < u32::MAX {
                    assert(self.entities.free_list()[0] == entity.index as usize);
                    assert(self.entities.slots()[i].0 == entity.generation + 1);
                }
            }
        }
    }

    /// Generational safety in the store: once the slot of a handle has a greater generation
    /// than the handle (as after `despawn`), the handle finds no values, in that state and in
    /// every later one whose allocator grew from it, and the next entity made at its index
    /// has a greater generation.
    pub proof fn lemma_generational_safety(freed: &World, later: &World, e: Entity)
        requires
            freed.wf(),
            later.wf(),
            (e.index as int) < freed.allocator().slots().len(),
            freed.allocator().slots()[e.index as int].0 > e.generation,
            later.allocator().grows_from(&freed.allocator()),
        ensures
            later.data(e) is None,
            later.can_spawn() && later.allocator().next_entity().index == e.index
                ==> later.allocator().next_entity().generation > e.generation,
    {
        Entities::lemma_generational_safety(&freed.entities, &later.entities, e);
    }

    /// Round trip: an entity made by `spawn_values` from the bytes of one value of type `T`
    /// reads back, as `T`, that value.
    pub proof fn lemma_round_trip<T: Component>(&self, e: Entity, part: (ComponentId, Vec<u8>), v: T)
        requires
            self.data(e) == Some(crate::component::bundle_map(seq![part])),
            part.1@.len() == vstd::layout::size_of::<T>(),
            T::read_spec(part.1@) == v,
        ensures
            self.value_as::<T>(e, part.0) == Some(v),
    {
        let values = seq![part];
        assert(values.drop_last() =~= Seq::<(ComponentId, Vec<u8>)>::empty());
        assert(crate::component::bundle_map(values.drop_last()) == Map::<ComponentId, Seq<u8>>::empty());
        assert(values.last() == part);
        assert(crate::component::bundle_map(values) == Map::<ComponentId, Seq<u8>>::empty().insert(part.0, part.1@));
    }

    /// Round trip through `spawn`: an entity made from one value holds that value, read as
    /// its type, at the id of the bundle's part.
    pub proof fn lemma_spawn_round_trip<C: Component>(&self, e: Entity, v: C, parts: Seq<(ComponentId, Vec<u8>)>)
        requires
            self.data(e) == Some(crate::component::bundle_map(parts)),
            <C as Bundle>::holds(v, parts),
        ensures
            self.value_as::<C>(e, parts[0].0) == Some(v),
    {
        assert(parts =~= seq![parts[0]]);
        self.lemma_round_trip(e, parts[0], v);
    }

    /// Structural dedup: two live entities have the same set of components exactly when
    /// they are stored in the same table, which happens exactly when they are in the same
    /// archetype.
    pub proof fn lemma_structural_dedup(&self, a: Entity, b: Entity)
        requires
            self.wf(),
            self.data(a) is Some,
            self.data(b) is Some,
        ensures
            (self.data(a)->Some_0.dom() == self.data(b)->Some_0.dom()) <==> (self.location(a)->Some_0.table_id
                == self.location(b)->Some_0.table_id),
            (self.location(a)->Some_0.table_id == self.location(b)->Some_0.table_id) <==> (self.location(
                a,
            )->Some_0.archetype_id == self.location(b)->Some_0.archetype_id),
    {
        let la = self.location(a)->Some_0;
        let lb = self.location(b)->Some_0;
        assert(self.entities.slots()[a.index as int].1 is Some);
        assert(self.entities.slots()[b.index as int].1 is Some);
        assert(self.loc_ok(la));
        assert(self.loc_ok(lb));
        let ta = self.tables.tables()[la.table_id.0 as int];
        let tb = self.tables.tables()[lb.table_id.0 as int];
        let da = self.data(a)->Some_0;
        let db = self.data(b)->Some_0;
        if da.dom() == db.dom() {
            assert forall|x: ComponentId| ta.key().contains(x) <==> tb.key().contains(x) by {
                assert(da.dom().contains(x) <==> ta.key().contains(x));
                assert(db.dom().contains(x) <==> tb.key().contains(x));
            }
            ta.lemma_wf_facts();
            tb.lemma_wf_facts();
            crate::storage::lemma_canonical_unique(ta.key(), tb.key());
            if la.table_id != lb.table_id {
                assert(ta.key() != tb.key());
            }
        }
        if la.table_id == lb.table_id {
            assert(da.dom() =~= db.dom());
        }
    }

    /// The bytes of one value of a live entity.
    pub fn get_component(&self, entity: Entity, id: ComponentId) -> (r: Option<Vec<u8>>)
        requires
            self.wf(),
        ensures
            r is Some <==> (self.data(entity) is Some && self.data(entity)->Some_0.contains_key(id)),
            r matches Some(v) ==> v@ == self.data(entity)->Some_0[id],
    {
        match self.entities.get(entity) {
            Some(loc) => {
                proof {
                    assert(self.entities.slots()[entity.index as int].1 is Some);
                    assert(self.loc_ok(loc));
                }
                match self.tables.get(loc.table_id) {
                    Some(table) => table.get_component(id, loc.table_row),
                    None => None,
                }
            },
            None => None,
        }
    }

    /// Overwrites one value of a live entity; returns whether the entity is live and has
    /// that component. Nothing else changes.
    pub fn set_component(&mut self, entity: Entity, id: ComponentId, bytes: &[u8]) -> (r: bool)
        requires
            old(self).wf(),
            old(self).registry().is_registered(id) ==> bytes@.len() == old(self).registry().size_of(id),
        ensures
            final(self).wf(),
            final(self).registry() == old(self).registry(),
            r == (old(self).data(entity) is Some && old(self).data(entity)->Some_0.contains_key(id)),
            final(self).data(entity) == if r {
                Some(old(self).data(entity)->Some_0.insert(id, bytes@))
            } else {
                old(self).data(entity)
            },
            forall|e: Entity| e != entity ==> #[trigger] final(self).data(e) == old(self).data(e),
            forall|e: Entity| #[trigger] final(self).location(e) == old(self).location(e),
            final(self).allocator() == old(self).allocator(),
            final(self).table_lens() == old(self).table_lens(),
            final(self).table_seq().len() == old(self).table_seq().len(),
            forall|t: int| 0 <= t < old(self).table_seq().len() ==> #[trigger] final(self).table_seq()[t].key()
                == old(self).table_seq()[t].key(),
    {
        let ghost w0 = *self;
        match self.entities.get(entity) {
            Some(loc) => {
                let ghost t = loc.table_id.0 as int;
                let ghost row = loc.table_row.0 as int;
                proof {
                    assert(self.entities.slots()[entity.index as int].1 is Some);
                    assert(self.loc_ok(loc));
                    let tb = self.tables.tables()[t];
                    assert(tb.sizes_match(&self.components));
                    if tb.key().contains(id) {
                        let j = choose|j: int| 0 <= j < tb.key().len() && tb.key()[j] == id;
                        assert(self.components.is_registered(tb.key()[j]));
                    }
                }
                let r = self.tables.set_component(loc.table_id, id, loc.table_row, bytes, Ghost(&self.components));
                proof {
                    let old_tb = w0.tables.tables()[t];
                    let new_tb = self.tables.tables()[t];
                    w0.tables.lemma_len_bound();
                    assert forall|a: int| 0 <= a < self.archetypes.spec_len() implies {
                        &&& (#[trigger] self.archetypes.archetypes()[a]).spec_table().0 == a
                        &&& self.archetypes.archetypes()[a].key() == self.tables.tables()[a].key()
                        &&& self.archetypes.archetypes()[a].entities() == self.tables.tables()[a].entities()
                    } by {
                        if a != t {
                            assert(self.tables.tables()[a] == w0.tables.tables()[a]);
                        }
                    }
                    assert forall|j: int|
                        0 <= j < self.entities.slots().len() && (#[trigger] self.entities.slots()[j]).1 is Some implies {
                            let l = self.entities.slots()[j].1->Some_0;
                            &&& self.loc_ok(l)
                            &&& self.tables.tables()[l.table_id.0 as int].entities()[l.table_row.0 as int] == (Entity {
                                generation: self.entities.slots()[j].0,
                                index: j as u32,
                            })
                        } by {
                        let l = w0.entities.slots()[j].1->Some_0;
                        assert(w0.loc_ok(l));
                        if l.table_id.0 as int != t {
                            assert(self.tables.tables()[l.table_id.0 as int] == w0.tables.tables()[l.table_id.0 as int]);
                        }
                    }
                    assert forall|tt: int, rr: int|
                        0 <= tt < self.tables.spec_len() && 0 <= rr < self.tables.tables()[tt].spec_len() implies {
                            let x = #[trigger] self.tables.tables()[tt].entities()[rr];
                            &&& (x.index as int) < self.entities.slots().len()
                            &&& self.entities.slots()[x.index as int] == (x.generation, Some(Self::at(tt, rr)))
                        } by {
                        if tt != t {
                            assert(self.tables.tables()[tt] == w0.tables.tables()[tt]);
                        }
                        assert(w0.tables.tables()[tt].entities()[rr] == self.tables.tables()[tt].entities()[rr]);
                    }
                    if r {
                        Table::lemma_row_data_set(old_tb, new_tb, id, row, bytes@, row);
                    }
                    assert forall|x: Entity| x != entity implies #[trigger] self.data(x) == w0.data(x) by {
                        if w0.location(x) is Some {
                            let l = w0.location(x)->Some_0;
                            assert(w0.entities.slots()[x.index as int].1 is Some);
                            assert(w0.loc_ok(l));
                            if l.table_id.0 as int == t {
                                if r {
                                    assert(l.table_row.0 as int != row) by {
                                        if l.table_row.0 as int == row {
                                            assert(w0.tables.tables()[t].entities()[row] == x);
                                            assert(w0.tables.tables()[t].entities()[row] == entity);
                                        }
                                    }
                                    Table::lemma_row_data_set(old_tb, new_tb, id, row, bytes@, l.table_row.0 as int);
                                } else {
                                    assert(new_tb.row_data(l.table_row.0 as int) =~= old_tb.row_data(l.table_row.0 as int));
                                }
                            } else {
                                assert(self.tables.tables()[l.table_id.0 as int] == w0.tables.tables()[l.table_id.0 as int]);
                            }
                        }
                    }
                    if !r {
                        assert(new_tb.row_data(row) =~= old_tb.row_data(row));
                    }
                    assert(self.table_lens() =~= w0.table_lens());
                }
                r
            },
            None => false,
        }
    }

    /// Each value of a live entity has the size that the registry records for its component.
    pub proof fn lemma_value_len(&self, entity: Entity, id: ComponentId)
        requires
            self.wf(),
            self.data(entity) is Some,
            self.data(entity)->Some_0.contains_key(id),
        ensures
            self.registry().is_registered(id),
            self.data(entity)->Some_0[id].len() == self.registry().size_of(id),
    {
        let l = self.location(entity)->Some_0;
        assert(self.entities.slots()[entity.index as int].1 is Some);
        assert(self.loc_ok(l));
        let tb = self.tables.tables()[l.table_id.0 as int];
        tb.lemma_value_len(id, l.table_row.0 as int);
        assert(tb.sizes_match(&self.components));
        let j = crate::storage::position_of(tb.key(), id);
        assert(tb.key()[j] == id);
    }

    /// What a value of type `T` reads as from the bytes of component `id` of a live entity;
    /// none where the entity lacks it or its bytes are not the size of `T`.
    pub open spec fn value_as<T: Component>(&self, entity: Entity, id: ComponentId) -> Option<T> {
        match self.data(entity) {
            Some(d) => if d.contains_key(id) && d[id].len() == vstd::layout::size_of::<T>() {
                Some(T::read_spec(d[id]))
            } else {
                None
            },
            None => None,
        }
    }

    /// Reads component `id` of a live entity as a value of type `T`.
    pub fn get_as<T: Component>(&self, entity: Entity, id: ComponentId) -> (r: Option<T>)
        requires
            self.wf(),
        ensures
            r == self.value_as::<T>(entity, id),
    {
        match self.get_component(entity, id) {
            Some(bytes) => {
                if bytes.len() == core::mem::size_of::<T>() {
                    Some(T::from_bytes(bytes.as_slice()))
                } else {
                    None
                }
            },
            None => None,
        }
    }

    /// The id of `T`, if it is registered.
    pub fn component_id<T: Component>(&self) -> (r: Option<ComponentId>)
        requires
            self.wf(),
        ensures
            r matches Some(id) ==> self.registry().is_registered(id) && self.registry().size_of(id)
                == vstd::layout::size_of::<T>(),
            exists|key: TypeId| r == #[trigger] self.registry().lookup_key(key, vstd::layout::size_of::<T>() as usize),
    {
        let r = self.components.component_id::<T>();
        proof {
            let k = choose|k: TypeId| r == #[trigger] self.components.lookup_key(k, vstd::layout::size_of::<T>() as usize);
            assert(r == self.registry().lookup_key(k, vstd::layout::size_of::<T>() as usize));
        }
        r
    }

    /// The value of type `T` of a live entity: none if the entity is unknown or stale, `T`
    /// is not registered, or the entity has no such component.
    pub fn get<T: Component>(&self, entity: Entity) -> (r: Option<T>)
        requires
            self.wf(),
        ensures
            self.data(entity) is None ==> r is None,
            exists|key: TypeId|
                r == match #[trigger] self.registry().lookup_key(key, vstd::layout::size_of::<T>() as usize) {
                    Some(id) => self.value_as::<T>(entity, id),
                    None => None,
                },
    {
        let found = self.components.component_id::<T>();
        let ghost k = choose|k: TypeId| found == #[trigger] self.components.lookup_key(k, vstd::layout::size_of::<T>() as usize);
        let r = match found {
            Some(id) => self.get_as::<T>(entity, id),
            None => None,
        };
        assert(r == match self.registry().lookup_key(k, vstd::layout::size_of::<T>() as usize) {
            Some(id) => self.value_as::<T>(entity, id),
            None => None,
        });
        r
    }

    /// Writes `value` as the value of type `T` of a live entity and returns the value it
    /// held; none, with nothing changed, where `get` gives none.
    pub fn replace<T: Component>(&mut self, entity: Entity, value: T) -> (r: Option<T>)
        requires
            old(self).wf(),
        ensures
            final(self).wf(),
            final(self).registry() == old(self).registry(),
            final(self).allocator() == old(self).allocator(),
            old(self).data(entity) is None ==> r is None,
            r is None ==> *final(self) == *old(self),
            forall|e: Entity| e != entity ==> #[trigger] final(self).data(e) == old(self).data(e),
            exists|key: TypeId|
                match #[trigger] old(self).registry().lookup_key(key, vstd::layout::size_of::<T>() as usize) {
                    Some(id) => {
                        &&& r == old(self).value_as::<T>(entity, id)
                        &&& r is Some ==> final(self).value_as::<T>(entity, id) == Some(value)
                    },
                    None => r is None,
                },
    {
        let found = self.components.component_id::<T>();
        let ghost k = choose|k: TypeId| found == #[trigger] self.components.lookup_key(k, vstd::layout::size_of::<T>() as usize);
        let ghost w0 = *self;
        let r = match found {
            Some(id) => match self.get_as::<T>(entity, id) {
                Some(previous) => {
                    let bytes = value.to_bytes();
                    proof {
                        self.lemma_value_len(entity, id);
                    }
                    let ok = self.set_component(entity, id, bytes.as_slice());
                    proof {
                        assert(self.value_as::<T>(entity, id) == Some(value));
                    }
                    Some(previous)
                },
                None => None,
            },
            None => None,
        };
        proof {
            assert(match w0.registry().lookup_key(k, vstd::layout::size_of::<T>() as usize) {
                Some(id) => {
                    &&& r == w0.value_as::<T>(entity, id)
                    &&& r is Some ==> self.value_as::<T>(entity, id) == Some(value)
                },
                None => r is None,
            });
        }
        r
    }

    /// Makes an entity that holds the values of `bundle`, registering their types on first
    /// use; see [`World::spawn_values`].
    pub fn spawn<B: Bundle>(&mut self, bundle: B) -> (r: Entity)
        requires
            old(self).wf(),
            old(self).can_spawn(),
        ensures
            final(self).wf(),
            r == old(self).allocator().next_entity(),
            old(self).location(r) is None,
            forall|e: Entity| e != r ==> #[trigger] final(self).data(e) == old(self).data(e),
            forall|e: Entity| e != r ==> #[trigger] final(self).location(e) == old(self).location(e),
            final(self).registry().extends(&old(self).registry()),
            final(self).allocator().grows_from(&old(self).allocator()),
            final(self).allocator().slots().len() <= old(self).allocator().slots().len() + 1,
            final(self).allocator().slots().len() == old(self).allocator().slots_after_alloc(final(self).location(r)->Some_0).len(),
            final(self).allocator().free_list() == old(self).allocator().free_after_alloc(),
            final(self).location(r) is Some,
            exists|parts: Seq<(ComponentId, Vec<u8>)>| {
                &&& #[trigger] B::holds(bundle, parts)
                &&& final(self).parts_fit(parts)
                &&& final(self).data(r) == Some(crate::component::bundle_map(parts))
                &&& old(self).spawned_at(final(self).location(r)->Some_0, crate::component::bundle_map(parts).dom(), *final(self))
            },
    {
        let ghost c0 = self.components;
        let ghost b = bundle;
        let values = bundle.into_parts(&mut self.components);
        proof {
            self.tables.lemma_wf_extends(&c0, &self.components);
        }
        let ghost parts = values@;
        let r = self.spawn_values(values);
        assert(B::holds(b, parts));
        r
    }

    /// A query over the entities whose components include the types of `Q`; see
    /// [`Query::new`].
    pub fn query<'w, Q: Queryable>(&'w self) -> (r: Query<'w, Q>)
        requires
            self.wf(),
        ensures
            r.wf(),
            r.world() == *self,
            Q::found(self.registry(), r.ids().len() > 0, r.ids()),
            r.remaining() == crate::query::rows_from(self.table_lens(), r.matched(), 0, 0),
            crate::query::is_ascending_tables(r.matched()),
            forall|t: int| #![trigger r.matched().contains(TableId(t as usize))]
                0 <= t < self.table_seq().len() ==> (r.matched().contains(TableId(t as usize))
                <==> (r.ids().len() > 0 && crate::archetype::is_superset(self.table_seq()[t].key(), r.ids()))),
            forall|k: int| 0 <= k < r.matched().len() ==> (#[trigger] r.matched()[k]).0 < self.table_seq().len(),
    {
        Query::new(self)
    }

    /// A query with exclusive access to the store, which can overwrite the values it
    /// visits; see [`QueryMut::new`].
    pub fn query_mut<'w, Q: Queryable>(&'w mut self) -> (r: QueryMut<'w, Q>)
        requires
            old(self).wf(),
        ensures
            r.wf(),
            r.world() == *old(self),
            Q::found(old(self).registry(), r.ids().len() > 0, r.ids()),
            r.last() is None,
            r.remaining() == crate::query::rows_from(old(self).table_lens(), r.matched(), 0, 0),
            crate::query::is_ascending_tables(r.matched()),
            forall|t: int| #![trigger r.matched().contains(TableId(t as usize))]
                0 <= t < old(self).table_seq().len() ==> (r.matched().contains(TableId(t as usize))
                <==> (r.ids().len() > 0 && crate::archetype::is_superset(old(self).table_seq()[t].key(), r.ids()))),
    {
        QueryMut::new(self)
    }

    pub fn entities(&self) -> (r: &Entities)
        requires
            self.wf(),
        ensures
            r.wf(),
            *r == self.allocator(),
    {
        &self.entities
    }

    pub fn components(&self) -> (r: &Components)
        ensures
            *r == self.registry(),
    {
        &self.components
    }

    pub fn archetypes(&self) -> (r: &Archetypes)
        requires
            self.wf(),
        ensures
            r.wf(),
            r.archetypes() == self.archetype_seq(),
    {
        &self.archetypes
    }

    pub fn tables(&self) -> (r: &Tables)
        ensures
            r.tables() == self.table_seq(),
    {
        &self.tables
    }

    /// What the invariant gives of the tables and archetypes: archetype `a` is bound to
    /// table `a`, with the same key, and each table holds values of the registered sizes.
    pub proof fn lemma_tables(&self)
        requires
            self.wf(),
        ensures
            self.registry().wf(),
            self.archetype_seq().len() == self.table_seq().len(),
            self.table_seq().len() <= usize::MAX,
            forall|t: int| 0 <= t < self.table_seq().len() ==> {
                &&& (#[trigger] self.table_seq()[t]).wf()
                &&& self.table_seq()[t].sizes_match(&self.registry())
                &&& self.archetype_seq()[t].spec_table().0 == t
                &&& self.archetype_seq()[t].key() == self.table_seq()[t].key()
            },
    {
        self.tables.lemma_len_bound();
        assert forall|t: int| 0 <= t < self.table_seq().len() implies {
            &&& (#[trigger] self.table_seq()[t]).wf()
            &&& self.table_seq()[t].sizes_match(&self.registry())
            &&& self.archetype_seq()[t].spec_table().0 == t
            &&& self.archetype_seq()[t].key() == self.table_seq()[t].key()
        } by {
            assert(self.archetypes.archetypes()[t].spec_table().0 == t);
        }
    }

    /// Each row of a table belongs to a live entity that is stored there, and each live
    /// entity is stored in a row of a table.
    pub proof fn lemma_rows(&self)
        requires
            self.wf(),
        ensures
            forall|t: int, r: int|
                0 <= t < self.table_seq().len() && 0 <= r < self.table_seq()[t].spec_len() ==> {
                    let e = #[trigger] self.table_seq()[t].entities()[r];
                    &&& self.location(e) is Some
                    &&& self.location(e)->Some_0.table_id.0 == t
                    &&& self.location(e)->Some_0.table_row.0 == r
                },
            forall|e: Entity| #[trigger] self.location(e) is Some ==> {
                let l = self.location(e)->Some_0;
                &&& l.archetype_id.0 == l.table_id.0
                &&& l.table_id.0 < self.table_seq().len()
                &&& l.table_row.0 < self.table_seq()[l.table_id.0 as int].spec_len()
                &&& self.table_seq()[l.table_id.0 as int].entities()[l.table_row.0 as int] == e
            },
    {
        self.tables.lemma_len_bound();
        assert forall|t: int, r: int|
            0 <= t < self.table_seq().len() && 0 <= r < self.table_seq()[t].spec_len() implies {
                let e = #[trigger] self.table_seq()[t].entities()[r];
                &&& self.location(e) is Some
                &&& self.location(e)->Some_0.table_id.0 == t
                &&& self.location(e)->Some_0.table_row.0 == r
            } by {
            self.table_seq()[t].lemma_len_bound();
        }
        assert forall|e: Entity| #[trigger] self.location(e) is Some implies {
            let l = self.location(e)->Some_0;
            &&& l.archetype_id.0 == l.table_id.0
            &&& l.table_id.0 < self.table_seq().len()
            &&& l.table_row.0 < self.table_seq()[l.table_id.0 as int].spec_len()
            &&& self.table_seq()[l.table_id.0 as int].entities()[l.table_row.0 as int] == e
        } by {
            assert(self.entities.slots()[e.index as int].1 is Some);
        }
    }
}

} // verus!
