use vstd::prelude::*;

use crate::component::ComponentId;
use crate::entity::{Entity, EntityLocation};
use crate::storage::{TableId, TableRow};

verus! {

/// Dense index of an archetype, in creation order.
#[derive(Debug, Default, Clone, Copy, PartialEq, Eq, Hash, PartialOrd, Ord, Structural)]
pub struct ArchetypeId(pub usize);

impl ArchetypeId {
    pub fn index(&self) -> (r: usize)
        ensures
            r == self.0,
    {
        self.0
    }
}

/// The entity in one row of an archetype, and that row.
#[derive(Debug, Clone, Copy)]
struct EntityRecord {
    entity: Entity,
    row: TableRow,
}

/// The entities that have exactly one set of components, bound to the table that holds
/// their values: row `r` of the archetype is row `r` of the table.
#[derive(Debug)]
pub struct Archetype {
    id: ArchetypeId,
    table: TableId,
    entities: Vec<EntityRecord>,
    components: Vec<ComponentId>,
}

/// `sup` holds every id of `sub`.
pub open spec fn is_superset(sup: Seq<ComponentId>, sub: Seq<ComponentId>) -> bool {
    forall|k: int| 0 <= k < sub.len() ==> sup.contains(#[trigger] sub[k])
}

impl Archetype {
    pub closed spec fn spec_id(&self) -> ArchetypeId {
        self.id
    }

    pub closed spec fn spec_table(&self) -> TableId {
        self.table
    }

    /// The canonical key: the ids of the archetype's components, in increasing order.
    pub closed spec fn key(&self) -> Seq<ComponentId> {
        self.components@
    }

    /// The entity of each row.
    pub closed spec fn entities(&self) -> Seq<Entity> {
        self.entities@.map_values(|e: EntityRecord| e.entity)
    }

    /// Each record holds its own row, and the key is canonical.
    pub closed spec fn wf(&self) -> bool {
        &&& forall|r: int| 0 <= r < self.entities@.len() ==> (#[trigger] self.entities@[r]).row.0 == r
        &&& crate::storage::is_canonical(self.components@)
    }

    fn new(id: ArchetypeId, table: TableId, component_ids: &[ComponentId]) -> (r: Archetype)
        requires
            crate::storage::is_canonical(component_ids@),
        ensures
            r.wf(),
            r.spec_id() == id,
            r.spec_table() == table,
            r.key() == component_ids@,
            r.entities() == Seq::<Entity>::empty(),
    {
        let mut components: Vec<ComponentId> = Vec::new();
        let mut i: usize = 0;
        while i < component_ids.len()
            invariant
                i <= component_ids@.len(),
                components@ == component_ids@.take(i as int),
            decreases component_ids@.len() - i,
        {
            components.push(component_ids[i]);
            i = i + 1;
            assert(components@ =~= component_ids@.take(i as int));
        }
        assert(components@ =~= component_ids@);
        let r = Archetype { id, table, entities: Vec::new(), components };
        assert(r.entities() =~= Seq::<Entity>::empty());
        r
    }

    pub fn id(&self) -> (r: ArchetypeId)
        ensures
            r == self.spec_id(),
    {
        self.id
    }

    pub fn table_id(&self) -> (r: TableId)
        ensures
            r == self.spec_table(),
    {
        self.table
    }

    pub fn len(&self) -> (r: usize)
        ensures
            r == self.entities().len(),
    {
        self.entities.len()
    }

    /// Whether the archetype has the component.
    pub fn contains(&self, id: ComponentId) -> (r: bool)
        ensures
            r == self.key().contains(id),
    {
        let mut i: usize = 0;
        while i < self.components.len()
            invariant
                i <= self.components@.len(),
                forall|k: int| 0 <= k < i ==> self.components@[k] != id,
            decreases self.components@.len() - i,
        {
            if self.components[i].0 == id.0 {
                assert(self.components@[i as int] == id);
                return true;
            }
            i = i + 1;
        }
        false
    }

    /// Whether the archetype has every one of the components.
    pub fn is_superset_of(&self, ids: &[ComponentId]) -> (r: bool)
        ensures
            r == is_superset(self.key(), ids@),
    {
        let mut i: usize = 0;
        while i < ids.len()
            invariant
                i <= ids@.len(),
                forall|k: int| 0 <= k < i ==> self.key().contains(#[trigger] ids@[k]),
            decreases ids@.len() - i,
        {
            if !self.contains(ids[i]) {
                return false;
            }
            i = i + 1;
        }
        true
    }

    /// Appends a record of `entity` in the next row and returns the entity's location.
    pub fn allocate(&mut self, entity: Entity, table_row: TableRow) -> (r: EntityLocation)
        requires
            old(self).wf(),
            table_row.0 == old(self).entities().len(),
        ensures
            final(self).wf(),
            final(self).spec_id() == old(self).spec_id(),
            final(self).spec_table() == old(self).spec_table(),
            final(self).key() == old(self).key(),
            final(self).entities() == old(self).entities().push(entity),
            r == (EntityLocation {
                archetype_id: old(self).spec_id(),
                table_id: old(self).spec_table(),
                table_row,
            }),
    {
        self.entities.push(EntityRecord { entity, row: table_row });
        assert(self.entities() =~= old(self).entities().push(entity));
        EntityLocation { archetype_id: self.id, table_id: self.table, table_row }
    }

    /// Removes a row: the last row takes its place. Returns the entity that now holds the
    /// row, none if the row was the last.
    pub fn swap_remove(&mut self, row: TableRow) -> (r: Option<Entity>)
        requires
            old(self).wf(),
            row.0 < old(self).entities().len(),
        ensures
            final(self).wf(),
            final(self).spec_id() == old(self).spec_id(),
            final(self).spec_table() == old(self).spec_table(),
            final(self).key() == old(self).key(),
            final(self).entities() == old(self).entities().update(
                row.0 as int,
                old(self).entities().last(),
            ).drop_last(),
            r == if row.0 + 1 < old(self).entities().len() {
                Some(old(self).entities().last())
            } else {
                None::<Entity>
            },
    {
        let last = self.entities.len() - 1;
        let moved = self.entities[last].entity;
        self.entities.swap_remove(row.0);
        if row.0 < last {
            self.entities.set(row.0, EntityRecord { entity: moved, row });
        }
        assert(self.entities() =~= old(self).entities().update(
            row.0 as int,
            old(self).entities().last(),
        ).drop_last());
        if row.0 < last {
            Some(moved)
        } else {
            None
        }
    }
}

/// Ids in strictly increasing order.
pub open spec fn is_ascending(ids: Seq<ArchetypeId>) -> bool {
    forall|i: int, j: int| 0 <= i < j < ids.len() ==> (#[trigger] ids[i]).0 < (#[trigger] ids[j]).0
}

/// All archetypes, each with a distinct key, and for each component the archetypes that
/// have it.
#[derive(Debug)]
pub struct Archetypes {
    archetypes: Vec<Archetype>,
    component_index: Vec<Vec<ArchetypeId>>,
}

impl Archetypes {
    pub closed spec fn archetypes(&self) -> Seq<Archetype> {
        self.archetypes@
    }

    /// The archetypes that have component `c`, in increasing order.
    pub closed spec fn bucket(&self, c: ComponentId) -> Seq<ArchetypeId> {
        if c.0 < self.component_index@.len() {
            self.component_index@[c.0 as int]@
        } else {
            Seq::empty()
        }
    }

    pub open spec fn spec_len(&self) -> nat {
        self.archetypes().len()
    }

    pub open spec fn wf(&self) -> bool {
        &&& forall|a: int|
            0 <= a < self.spec_len() ==> (#[trigger] self.archetypes()[a]).wf()
                && self.archetypes()[a].spec_id().0 == a
        &&& forall|a: int, b: int|
            0 <= a < self.spec_len() && 0 <= b < self.spec_len() && a != b ==> (#[trigger] self.archetypes()[a]).key()
                != (#[trigger] self.archetypes()[b]).key()
        &&& forall|a: int, b: int|
            0 <= a < b < self.spec_len() ==> (#[trigger] self.archetypes()[a]).spec_table().0
                < (#[trigger] self.archetypes()[b]).spec_table().0
        &&& forall|c: ComponentId| #[trigger] is_ascending(self.bucket(c))
        &&& forall|c: ComponentId, k: int|
            0 <= k < self.bucket(c).len() ==> (#[trigger] self.bucket(c)[k]).0 < self.spec_len()
                && self.archetypes()[self.bucket(c)[k].0 as int].key().contains(c)
        &&& forall|c: ComponentId, a: int|
            0 <= a < self.spec_len() && #[trigger] self.archetypes()[a].key().contains(c)
                ==> self.bucket(c).contains(ArchetypeId(a as usize))
    }

    /// The archetype with the given key, if there is one.
    pub open spec fn find(&self, ids: Seq<ComponentId>) -> Option<ArchetypeId> {
        if exists|a: int| 0 <= a < self.spec_len() && (#[trigger] self.archetypes()[a]).key() == ids {
            Some(
                ArchetypeId(
                    (choose|a: int|
                        0 <= a < self.spec_len() && (#[trigger] self.archetypes()[a]).key()
                            == ids) as usize,
                ),
            )
        } else {
            None
        }
    }

    pub fn new() -> (r: Archetypes)
        ensures
            r.wf(),
            r.spec_len() == 0,
    {
        let r = Archetypes { archetypes: Vec::new(), component_index: Vec::new() };
        assert forall|c: ComponentId| #[trigger] is_ascending(r.bucket(c)) by {}
        r
    }

    /// The archetype of the given canonical ids; a new one, bound to `table_id`, is made for
    /// ids not seen before, and entered in the bucket of each of its components.
    pub fn get_id_or_insert(&mut self, table_id: TableId, ids: &[ComponentId]) -> (r: ArchetypeId)
        requires
            old(self).wf(),
            crate::storage::is_canonical(ids@),
            old(self).find(ids@) is None ==> forall|a: int|
                0 <= a < old(self).spec_len() ==> (#[trigger] old(self).archetypes()[a]).spec_table().0 < table_id.0,
        ensures
            final(self).wf(),
            r.0 < final(self).spec_len(),
            final(self).archetypes()[r.0 as int].key() == ids@,
            old(self).find(ids@) is Some ==> *final(self) == *old(self) && r == old(self).find(
                ids@,
            )->Some_0,
            old(self).find(ids@) is None ==> {
                &&& r.0 == old(self).spec_len()
                &&& final(self).archetypes().drop_last() == old(self).archetypes()
                &&& final(self).spec_len() == old(self).spec_len() + 1
                &&& final(self).archetypes()[r.0 as int].spec_table() == table_id
                &&& final(self).archetypes()[r.0 as int].entities() == Seq::<Entity>::empty()
            },
    {
        let mut a: usize = 0;
        while a < self.archetypes.len()
            invariant
                a <= self.archetypes@.len(),
                self.wf(),
                forall|k: int| 0 <= k < a ==> (#[trigger] self.archetypes@[k]).key() != ids@,
            decreases self.archetypes@.len() - a,
        {
            if crate::storage::same_ids(self.archetypes[a].components.as_slice(), ids) {
                proof {
                    let c = choose|k: int|
                        0 <= k < self.spec_len() && (#[trigger] self.archetypes()[k]).key() == ids@;
                    assert(self.archetypes()[a as int].key() == ids@);
                    if c != a {
                        assert(self.archetypes()[c].key() != self.archetypes()[a as int].key());
                    }
                }
                return ArchetypeId(a);
            }
            a = a + 1;
        }
        let id = ArchetypeId(a);
        let ghost old_self = *self;
        let mut i: usize = 0;
        while i < ids.len()
            invariant
                i <= ids@.len(),
                crate::storage::is_canonical(ids@),
                id.0 == self.archetypes@.len(),
                self.archetypes@ == old_self.archetypes@,
                forall|c: ComponentId| #[trigger] is_ascending(self.bucket(c)),
                forall|c: ComponentId|
                    #[trigger] self.bucket(c) == if ids@.take(i as int).contains(c) {
                        old_self.bucket(c).push(id)
                    } else {
                        old_self.bucket(c)
                    },
                forall|c: ComponentId, k: int|
                    0 <= k < old_self.bucket(c).len() ==> (#[trigger] old_self.bucket(c)[k]).0
                        < id.0,
            decreases ids@.len() - i,
        {
            let c = ids[i];
            proof {
                if ids@.take(i as int).contains(c) {
                    let k = choose|k: int| 0 <= k < i && #[trigger] ids@.take(i as int)[k] == c;
                    assert(ids@[k].0 < ids@[i as int].0);
                }
                assert(self.bucket(c) == old_self.bucket(c));
            }
            self.add_to_bucket(c, id);
            proof {
                assert forall|d: ComponentId| #[trigger] self.bucket(d) == if ids@.take(
                    i + 1,
                ).contains(d) {
                    old_self.bucket(d).push(id)
                } else {
                    old_self.bucket(d)
                } by {
                    assert(ids@.take(i + 1) =~= ids@.take(i as int).push(c));
                    if d != c {
                        if ids@.take(i + 1).contains(d) {
                            let k = choose|k: int| 0 <= k < i + 1 && #[trigger] ids@.take(i + 1)[k] == d;
                            assert(ids@.take(i as int)[k] == d);
                        }
                    } else {
                        assert(ids@.take(i + 1)[i as int] == d);
                    }
                }
            }
            i = i + 1;
        }
        assert(ids@.take(i as int) =~= ids@);
        let archetype = Archetype::new(id, table_id, ids);
        let ghost pre = *self;
        self.archetypes.push(archetype);
        proof {
            assert forall|c: ComponentId| #[trigger] self.bucket(c) == if ids@.contains(c) {
                old_self.bucket(c).push(id)
            } else {
                old_self.bucket(c)
            } by {
                assert(self.bucket(c) == pre.bucket(c));
            }
            assert forall|c: ComponentId| #[trigger] is_ascending(self.bucket(c)) by {
                assert(self.bucket(c) == pre.bucket(c));
                assert(is_ascending(pre.bucket(c)));
            }
            assert(self.archetypes@.drop_last() =~= old_self.archetypes@);
            assert forall|x: int, y: int|
                0 <= x < y < self.spec_len() implies (#[trigger] self.archetypes()[x]).spec_table().0
                < (#[trigger] self.archetypes()[y]).spec_table().0 by {
                assert(self.archetypes()[x] == old_self.archetypes()[x]);
                if y < id.0 {
                    assert(self.archetypes()[y] == old_self.archetypes()[y]);
                }
            }
            assert forall|b: int| 0 <= b < self.spec_len() implies (#[trigger] self.archetypes()[b]).wf()
                && self.archetypes()[b].spec_id().0 == b by {
                if b < id.0 {
                    assert(self.archetypes()[b] == old_self.archetypes()[b]);
                }
            }
            assert forall|x: int, y: int|
                0 <= x < self.spec_len() && 0 <= y < self.spec_len() && x != y implies (#[trigger] self.archetypes()[x]).key()
                != (#[trigger] self.archetypes()[y]).key() by {
                if x < id.0 {
                    assert(self.archetypes()[x] == old_self.archetypes()[x]);
                }
                if y < id.0 {
                    assert(self.archetypes()[y] == old_self.archetypes()[y]);
                }
            }
            assert forall|c: ComponentId, k: int|
                0 <= k < self.bucket(c).len() implies (#[trigger] self.bucket(c)[k]).0 < self.spec_len()
                && self.archetypes()[self.bucket(c)[k].0 as int].key().contains(c) by {
                if k < old_self.bucket(c).len() {
                    assert(self.bucket(c)[k] == old_self.bucket(c)[k]);
                    assert(self.archetypes()[self.bucket(c)[k].0 as int] == old_self.archetypes()[self.bucket(c)[k].0 as int]);
                }
            }
            assert forall|c: ComponentId, b: int|
                0 <= b < self.spec_len() && #[trigger] self.archetypes()[b].key().contains(c)
                implies self.bucket(c).contains(ArchetypeId(b as usize)) by {
                if b < id.0 {
                    assert(self.archetypes()[b] == old_self.archetypes()[b]);
                    assert(old_self.bucket(c).contains(ArchetypeId(b as usize)));
                    let k = choose|k: int| 0 <= k < old_self.bucket(c).len() && old_self.bucket(c)[k] == ArchetypeId(b as usize);
                    assert(self.bucket(c)[k] == ArchetypeId(b as usize));
                } else {
                    assert(self.bucket(c)[self.bucket(c).len() - 1] == ArchetypeId(b as usize));
                }
            }
        }
        id
    }

    /// Appends `id` to the bucket of `c`, which holds only smaller ids.
    fn add_to_bucket(&mut self, c: ComponentId, id: ArchetypeId)
        requires
            forall|d: ComponentId| #[trigger] is_ascending(old(self).bucket(d)),
            forall|k: int| 0 <= k < old(self).bucket(c).len() ==> (#[trigger] old(self).bucket(c)[k]).0 < id.0,
        ensures
            final(self).archetypes() == old(self).archetypes(),
            forall|d: ComponentId| #[trigger] is_ascending(final(self).bucket(d)),
            forall|d: ComponentId| #[trigger] final(self).bucket(d) == if d == c {
                old(self).bucket(d).push(id)
            } else {
                old(self).bucket(d)
            },
    {
        while self.component_index.len() <= c.0
            invariant
                self.archetypes@ == old(self).archetypes@,
                forall|d: ComponentId| #[trigger] self.bucket(d) == old(self).bucket(d),
            decreases c.0 + 1 - self.component_index@.len(),
        {
            let ghost before = *self;
            self.component_index.push(Vec::new());
            assert forall|d: ComponentId| #[trigger] self.bucket(d) == before.bucket(d) by {
                if d.0 < before.component_index@.len() {
                    assert(self.component_index@[d.0 as int] == before.component_index@[d.0 as int]);
                }
            }
        }
        let ghost mid = *self;
        self.component_index[c.0].push(id);
        assert forall|d: ComponentId| #[trigger] self.bucket(d) == if d == c {
            old(self).bucket(d).push(id)
        } else {
            old(self).bucket(d)
        } by {
            assert(mid.bucket(d) == old(self).bucket(d));
            if d != c && d.0 < self.component_index@.len() {
                assert(self.component_index@[d.0 as int] == mid.component_index@[d.0 as int]);
            }
        }
        assert forall|d: ComponentId| #[trigger] is_ascending(self.bucket(d)) by {
            assert(is_ascending(old(self).bucket(d)));
            if d == c {
                assert forall|x: int, y: int| 0 <= x < y < self.bucket(d).len() implies (#[trigger] self.bucket(d)[x]).0
                    < (#[trigger] self.bucket(d)[y]).0 by {
                    if y == self.bucket(d).len() - 1 {
                        assert(self.bucket(d)[x] == old(self).bucket(d)[x]);
                    }
                }
            }
        }
    }

    pub fn len(&self) -> (r: usize)
        ensures
            r == self.spec_len(),
    {
        self.archetypes.len()
    }

    pub fn get(&self, id: ArchetypeId) -> (r: Option<&Archetype>)
        ensures
            r is Some <==> id.0 < self.spec_len(),
            r matches Some(a) ==> *a == self.archetypes()[id.0 as int],
    {
        if id.0 < self.archetypes.len() {
            Some(&self.archetypes[id.0])
        } else {
            None
        }
    }

    /// Appends a record of `entity` to an archetype; see [`Archetype::allocate`].
    pub fn allocate(&mut self, id: ArchetypeId, entity: Entity, table_row: TableRow) -> (r:
        EntityLocation)
        requires
            old(self).wf(),
            id.0 < old(self).spec_len(),
            table_row.0 == old(self).archetypes()[id.0 as int].entities().len(),
        ensures
            final(self).wf(),
            final(self).spec_len() == old(self).spec_len(),
            forall|a: int|
                0 <= a < old(self).spec_len() && a != id.0 ==> #[trigger] final(self).archetypes()[a]
                    == old(self).archetypes()[a],
            final(self).archetypes()[id.0 as int].spec_table() == old(self).archetypes()[id.0 as int].spec_table(),
            final(self).archetypes()[id.0 as int].key() == old(self).archetypes()[id.0 as int].key(),
            final(self).archetypes()[id.0 as int].entities() == old(self).archetypes()[id.0 as int].entities().push(entity),
            r == (EntityLocation {
                archetype_id: id,
                table_id: old(self).archetypes()[id.0 as int].spec_table(),
                table_row,
            }),
    {
        let ghost pre = *self;
        let r = self.archetypes[id.0].allocate(entity, table_row);
        proof {
            assert forall|c: ComponentId| #[trigger] self.bucket(c) == pre.bucket(c) by {}
            assert forall|a: int| 0 <= a < self.spec_len() implies #[trigger] self.archetypes()[a].key() == pre.archetypes()[a].key() by {}
            assert forall|c: ComponentId, a: int|
                0 <= a < self.spec_len() && #[trigger] self.archetypes()[a].key().contains(c)
                implies self.bucket(c).contains(ArchetypeId(a as usize)) by {
                assert(pre.archetypes()[a].key().contains(c));
            }
            assert forall|c: ComponentId, k: int|
                0 <= k < self.bucket(c).len() implies (#[trigger] self.bucket(c)[k]).0 < self.spec_len()
                && self.archetypes()[self.bucket(c)[k].0 as int].key().contains(c) by {
                assert(pre.archetypes()[pre.bucket(c)[k].0 as int].key().contains(c));
            }
            assert forall|c: ComponentId| #[trigger] is_ascending(self.bucket(c)) by {
                assert(is_ascending(pre.bucket(c)));
            }
            assert forall|x: int, y: int|
                0 <= x < y < self.spec_len() implies (#[trigger] self.archetypes()[x]).spec_table().0
                < (#[trigger] self.archetypes()[y]).spec_table().0 by {
                assert(pre.archetypes()[x].spec_table().0 < pre.archetypes()[y].spec_table().0);
            }
            assert forall|x: int, y: int|
                0 <= x < self.spec_len() && 0 <= y < self.spec_len() && x != y implies (#[trigger] self.archetypes()[x]).key()
                != (#[trigger] self.archetypes()[y]).key() by {
                assert(pre.archetypes()[x].key() != pre.archetypes()[y].key());
            }
        }
        r
    }

    /// Removes a row of an archetype; see [`Archetype::swap_remove`].
    pub fn swap_remove(&mut self, id: ArchetypeId, row: TableRow) -> (r: Option<Entity>)
        requires
            old(self).wf(),
            id.0 < old(self).spec_len(),
            row.0 < old(self).archetypes()[id.0 as int].entities().len(),
        ensures
            final(self).wf(),
            final(self).spec_len() == old(self).spec_len(),
            forall|a: int|
                0 <= a < old(self).spec_len() && a != id.0 ==> #[trigger] final(self).archetypes()[a]
                    == old(self).archetypes()[a],
            final(self).archetypes()[id.0 as int].spec_table() == old(self).archetypes()[id.0 as int].spec_table(),
            final(self).archetypes()[id.0 as int].key() == old(self).archetypes()[id.0 as int].key(),
            final(self).archetypes()[id.0 as int].entities() == old(self).archetypes()[id.0 as int].entities().update(
                row.0 as int,
                old(self).archetypes()[id.0 as int].entities().last(),
            ).drop_last(),
            r == if row.0 + 1 < old(self).archetypes()[id.0 as int].entities().len() {
                Some(old(self).archetypes()[id.0 as int].entities().last())
            } else {
                None::<Entity>
            },
    {
        let ghost pre = *self;
        let r = self.archetypes[id.0].swap_remove(row);
        proof {
            assert forall|c: ComponentId| #[trigger] self.bucket(c) == pre.bucket(c) by {}
            assert forall|a: int| 0 <= a < self.spec_len() implies #[trigger] self.archetypes()[a].key() == pre.archetypes()[a].key() by {}
            assert forall|c: ComponentId, a: int|
                0 <= a < self.spec_len() && #[trigger] self.archetypes()[a].key().contains(c)
                implies self.bucket(c).contains(ArchetypeId(a as usize)) by {
                assert(pre.archetypes()[a].key().contains(c));
            }
            assert forall|c: ComponentId, k: int|
                0 <= k < self.bucket(c).len() implies (#[trigger] self.bucket(c)[k]).0 < self.spec_len()
                && self.archetypes()[self.bucket(c)[k].0 as int].key().contains(c) by {
                assert(pre.archetypes()[pre.bucket(c)[k].0 as int].key().contains(c));
            }
            assert forall|c: ComponentId| #[trigger] is_ascending(self.bucket(c)) by {
                assert(is_ascending(pre.bucket(c)));
            }
            assert forall|x: int, y: int|
                0 <= x < y < self.spec_len() implies (#[trigger] self.archetypes()[x]).spec_table().0
                < (#[trigger] self.archetypes()[y]).spec_table().0 by {
                assert(pre.archetypes()[x].spec_table().0 < pre.archetypes()[y].spec_table().0);
            }
            assert forall|x: int, y: int|
                0 <= x < self.spec_len() && 0 <= y < self.spec_len() && x != y implies (#[trigger] self.archetypes()[x]).key()
                != (#[trigger] self.archetypes()[y]).key() by {
                assert(pre.archetypes()[x].key() != pre.archetypes()[y].key());
            }
        }
        r
    }

    /// The archetypes whose components include all of `components`, in increasing order,
    /// with the table of each. The search starts from the bucket of the first id.
    pub fn get_query_archetypes(&self, components: &[ComponentId]) -> (r: (
        Vec<ArchetypeId>,
        Vec<TableId>,
    ))
        requires
            self.wf(),
            components@.len() > 0,
        ensures
            is_ascending(r.0@),
            forall|a: int|
                #![trigger r.0@.contains(ArchetypeId(a as usize))]
                0 <= a < self.spec_len() ==> (r.0@.contains(ArchetypeId(a as usize)) <==> is_superset(
                    self.archetypes()[a].key(),
                    components@,
                )),
            forall|k: int| 0 <= k < r.0@.len() ==> (#[trigger] r.0@[k]).0 < self.spec_len(),
            r.1@.len() == r.0@.len(),
            forall|k: int|
                0 <= k < r.1@.len() ==> #[trigger] r.1@[k] == self.archetypes()[r.0@[k].0 as int].spec_table(),
            forall|i: int, j: int| 0 <= i < j < r.1@.len() ==> (#[trigger] r.1@[i]).0 < (#[trigger] r.1@[j]).0,
    {
        let first = components[0];
        let mut archetype_ids: Vec<ArchetypeId> = Vec::new();
        let mut table_ids: Vec<TableId> = Vec::new();
        if first.0 >= self.component_index.len() {
            proof {
                assert forall|a: int| 0 <= a < self.spec_len() implies !is_superset(
                    self.archetypes()[a].key(),
                    components@,
                ) by {
                    if is_superset(self.archetypes()[a].key(), components@) {
                        assert(self.archetypes()[a].key().contains(components@[0]));
                        assert(self.bucket(first).contains(ArchetypeId(a as usize)));
                    }
                }
            }
            return (archetype_ids, table_ids);
        }
        let bucket = &self.component_index[first.0];
        assert(bucket@ == self.bucket(first));
        let mut i: usize = 0;
        while i < bucket.len()
            invariant
                self.wf(),
                bucket@ == self.bucket(first),
                components@.len() > 0,
                first == components@[0],
                i <= bucket@.len(),
                table_ids@.len() == archetype_ids@.len(),
                is_ascending(archetype_ids@),
                forall|k: int| 0 <= k < archetype_ids@.len() ==> (#[trigger] archetype_ids@[k]).0 < self.spec_len(),
                forall|k: int|
                    0 <= k < table_ids@.len() ==> #[trigger] table_ids@[k] == self.archetypes()[archetype_ids@[k].0 as int].spec_table(),
                forall|k: int| 0 <= k < archetype_ids@.len() ==> exists|m: int| 0 <= m < i && bucket@[m] == #[trigger] archetype_ids@[k],
                forall|a: int|
                    #![trigger archetype_ids@.contains(ArchetypeId(a as usize))]
                    0 <= a < self.spec_len() ==> (archetype_ids@.contains(ArchetypeId(a as usize)) <==> (
                    is_superset(self.archetypes()[a].key(), components@) && exists|m: int|
                        0 <= m < i && bucket@[m] == ArchetypeId(a as usize))),
            decreases bucket@.len() - i,
        {
            let ghost prev = archetype_ids@;
            let id = bucket[i];
            let arch = &self.archetypes[id.0];
            if arch.is_superset_of(components) {
                let ghost before = archetype_ids@;
                proof {
                    assert forall|k: int| 0 <= k < before.len() implies (#[trigger] before[k]).0 < id.0 by {
                        let m = choose|m: int| 0 <= m < i && bucket@[m] == before[k];
                        assert(is_ascending(self.bucket(first)));
                        assert(bucket@[m].0 < bucket@[i as int].0);
                    }
                }
                archetype_ids.push(id);
                table_ids.push(arch.table);
                proof {
                    assert forall|k: int| 0 <= k < archetype_ids@.len() implies exists|m: int| 0 <= m < i + 1 && bucket@[m] == #[trigger] archetype_ids@[k] by {
                        if k < before.len() {
                            assert(archetype_ids@[k] == before[k]);
                        } else {
                            assert(bucket@[i as int] == archetype_ids@[k]);
                        }
                    }
                }
            }
            proof {
                assert forall|a: int|
                    #![trigger archetype_ids@.contains(ArchetypeId(a as usize))]
                    0 <= a < self.spec_len() implies (archetype_ids@.contains(ArchetypeId(a as usize)) <==> (
                    is_superset(self.archetypes()[a].key(), components@) && exists|m: int|
                        0 <= m < i + 1 && bucket@[m] == ArchetypeId(a as usize))) by {
                    let x = ArchetypeId(a as usize);
                    assert(prev.contains(x) <==> (is_superset(self.archetypes()[a].key(), components@)
                        && exists|m: int| 0 <= m < i && bucket@[m] == x));
                    if archetype_ids@.contains(x) {
                        let k = choose|k: int| 0 <= k < archetype_ids@.len() && archetype_ids@[k] == x;
                        if k < prev.len() {
                            assert(prev[k] == x);
                            assert(prev.contains(x));
                        } else {
                            assert(x == id);
                            assert(bucket@[i as int] == x);
                        }
                    }
                    if is_superset(self.archetypes()[a].key(), components@) && exists|m: int|
                        0 <= m < i + 1 && bucket@[m] == x {
                        let m = choose|m: int| 0 <= m < i + 1 && bucket@[m] == x;
                        if m < i {
                            assert(prev.contains(x));
                            let k = choose|k: int| 0 <= k < prev.len() && prev[k] == x;
                            assert(archetype_ids@[k] == x);
                        } else {
                            assert(id == x);
                            assert(archetype_ids@[archetype_ids@.len() - 1] == x);
                        }
                    }
                }
            }
            i = i + 1;
        }
        proof {
            assert forall|i: int, j: int| 0 <= i < j < table_ids@.len() implies (#[trigger] table_ids@[i]).0 < (#[trigger] table_ids@[j]).0 by {
                let x = archetype_ids@[i].0 as int;
                let y = archetype_ids@[j].0 as int;
                assert(x < y);
                assert(self.archetypes()[x].spec_table().0 < self.archetypes()[y].spec_table().0);
            }
            assert forall|a: int| 0 <= a < self.spec_len() && is_superset(self.archetypes()[a].key(), components@)
                implies archetype_ids@.contains(ArchetypeId(a as usize)) by {
                assert(self.archetypes()[a].key().contains(components@[0]));
                assert(self.bucket(first).contains(ArchetypeId(a as usize)));
                let m = choose|m: int| 0 <= m < bucket@.len() && bucket@[m] == ArchetypeId(a as usize);
                assert(exists|m: int| 0 <= m < i && bucket@[m] == ArchetypeId(a as usize));
            }
        }
        (archetype_ids, table_ids)
    }
}

} // verus!
