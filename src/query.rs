use vstd::prelude::*;

use std::marker::PhantomData;

use std::any::TypeId;

use crate::archetype::ArchetypeId;
use crate::entity::Entity;
use crate::component::{Component, ComponentId, Components};
use crate::storage::{Table, TableId, TableRow};
use crate::World;

verus! {

/// The shape of a query: one component type, or a pair of them.
pub trait Queryable: Sized {
    type Item;

    /// The ids are those of the query's types, registered with the sizes of those types.
    spec fn ids_fit(components: Components, ids: Seq<ComponentId>) -> bool;

    /// What a row with the given values yields.
    spec fn item_of(data: Map<ComponentId, Seq<u8>>, ids: Seq<ComponentId>) -> Self::Item;

    /// What a lookup of the query's types finds: with `some`, `ids` are the ids that the
    /// registry holds for the keys of the types; without, a type is missing.
    spec fn found(components: Components, some: bool, ids: Seq<ComponentId>) -> bool;

    /// The ids of the query's types; none if one of them is not registered.
    fn component_ids(components: &Components) -> (r: Option<Vec<ComponentId>>)
        requires
            components.wf(),
        ensures
            r matches Some(ids) ==> ids@.len() > 0 && Self::ids_fit(*components, ids@),
            Self::found(*components, r is Some, match r {
                Some(ids) => ids@,
                None => Seq::empty(),
            }),
    ;

    /// What writing `item` stores: parts of (id, bytes).
    spec fn parts_spec(item: Self::Item, ids: Seq<ComponentId>) -> Seq<(ComponentId, Seq<u8>)>;

    /// The item as parts of (id, bytes), each as many bytes as the registry records.
    fn parts_of(item: &Self::Item, ids: &Vec<ComponentId>, Ghost(components): Ghost<&Components>) -> (r: Vec<(ComponentId, Vec<u8>)>)
        requires
            Self::ids_fit(*components, ids@),
        ensures
            r@.len() == Self::parts_spec(*item, ids@).len(),
            forall|k: int| 0 <= k < r@.len() ==> {
                &&& (#[trigger] r@[k]).0 == Self::parts_spec(*item, ids@)[k].0
                &&& r@[k].1@ == Self::parts_spec(*item, ids@)[k].1
                &&& ids@.contains(r@[k].0)
                &&& components.is_registered(r@[k].0)
                &&& r@[k].1@.len() == components.size_of(r@[k].0)
            },
    ;

    /// Reads a row of a table that has all the query's components.
    fn fetch(table: &Table, ids: &Vec<ComponentId>, row: TableRow, Ghost(components): Ghost<&Components>) -> (r: Self::Item)
        requires
            table.wf(),
            table.sizes_match(components),
            crate::archetype::is_superset(table.key(), ids@),
            Self::ids_fit(*components, ids@),
            row.0 < table.spec_len(),
        ensures
            r == Self::item_of(table.row_data(row.0 as int), ids@),
    ;
}

/// The id of `C`, if it is registered with the size of `C`.
fn fitting_id<C: Component>(components: &Components) -> (r: Option<ComponentId>)
    requires
        components.wf(),
    ensures
        r matches Some(id) ==> components.is_registered(id) && components.size_of(id)
            == vstd::layout::size_of::<C>(),
        exists|key: TypeId| r == #[trigger] components.lookup_key(key, vstd::layout::size_of::<C>() as usize),
{
    components.component_id::<C>()
}

/// Reads the value of `C` in a row of a table that has component `id` with the size of `C`.
fn fetch_one<C: Component>(table: &Table, id: ComponentId, row: TableRow, Ghost(components): Ghost<&Components>) -> (r: C)
    requires
        table.wf(),
        table.sizes_match(components),
        table.key().contains(id),
        components.size_of(id) == vstd::layout::size_of::<C>(),
        row.0 < table.spec_len(),
    ensures
        r == C::read_spec(table.row_data(row.0 as int)[id]),
{
    proof {
        table.lemma_value_len(id, row.0 as int);
        let j = crate::storage::position_of(table.key(), id);
        assert(table.key()[j] == id);
    }
    let bytes = table.get_component(id, row).unwrap();
    C::from_bytes(bytes.as_slice())
}

impl<C: Component> Queryable for C {
    type Item = C;

    open spec fn found(components: Components, some: bool, ids: Seq<ComponentId>) -> bool {
        exists|key: TypeId|
            match #[trigger] components.lookup_key(key, vstd::layout::size_of::<C>() as usize) {
                Some(id) => some && ids == seq![id],
                None => !some,
            }
    }

    open spec fn ids_fit(components: Components, ids: Seq<ComponentId>) -> bool {
        &&& ids.len() == 1
        &&& components.is_registered(ids[0])
        &&& components.size_of(ids[0]) == vstd::layout::size_of::<C>()
    }

    open spec fn item_of(data: Map<ComponentId, Seq<u8>>, ids: Seq<ComponentId>) -> C {
        C::read_spec(data[ids[0]])
    }

    fn component_ids(components: &Components) -> (r: Option<Vec<ComponentId>>) {
        let found = fitting_id::<C>(components);
        let ghost k = choose|k: TypeId| found == #[trigger] components.lookup_key(k, vstd::layout::size_of::<C>() as usize);
        let r = match found {
            Some(id) => Some(vec![id]),
            None => None,
        };
        proof {
            if r is Some {
                assert(r->Some_0@ =~= seq![found->Some_0]);
            }
            assert(match components.lookup_key(k, vstd::layout::size_of::<C>() as usize) {
                Some(id) => (r is Some) && (match r { Some(ids) => ids@, None => Seq::empty() }) == seq![id],
                None => !(r is Some),
            });
        }
        r
    }

    open spec fn parts_spec(item: C, ids: Seq<ComponentId>) -> Seq<(ComponentId, Seq<u8>)> {
        seq![(ids[0], item.bytes_spec())]
    }

    fn parts_of(item: &C, ids: &Vec<ComponentId>, Ghost(components): Ghost<&Components>) -> (r: Vec<(ComponentId, Vec<u8>)>) {
        let bytes = item.to_bytes();
        assert(ids@.contains(ids@[0]));
        vec![(ids[0], bytes)]
    }

    fn fetch(table: &Table, ids: &Vec<ComponentId>, row: TableRow, Ghost(components): Ghost<&Components>) -> (r: C) {
        assert(table.key().contains(ids@[0]));
        fetch_one::<C>(table, ids[0], row, Ghost(components))
    }
}

impl<C0: Component, C1: Component> Queryable for (C0, C1) {
    type Item = (C0, C1);

    open spec fn found(components: Components, some: bool, ids: Seq<ComponentId>) -> bool {
        exists|k0: TypeId, k1: TypeId|
            match (#[trigger] components.lookup_key(k0, vstd::layout::size_of::<C0>() as usize), #[trigger] components.lookup_key(k1, vstd::layout::size_of::<C1>() as usize)) {
                (Some(a), Some(b)) => some && ids == seq![a, b],
                _ => !some,
            }
    }

    open spec fn ids_fit(components: Components, ids: Seq<ComponentId>) -> bool {
        &&& ids.len() == 2
        &&& components.is_registered(ids[0])
        &&& components.size_of(ids[0]) == vstd::layout::size_of::<C0>()
        &&& components.is_registered(ids[1])
        &&& components.size_of(ids[1]) == vstd::layout::size_of::<C1>()
    }

    open spec fn item_of(data: Map<ComponentId, Seq<u8>>, ids: Seq<ComponentId>) -> (C0, C1) {
        (C0::read_spec(data[ids[0]]), C1::read_spec(data[ids[1]]))
    }

    fn component_ids(components: &Components) -> (r: Option<Vec<ComponentId>>) {
        let f0 = fitting_id::<C0>(components);
        let f1 = fitting_id::<C1>(components);
        let ghost k0 = choose|k: TypeId| f0 == #[trigger] components.lookup_key(k, vstd::layout::size_of::<C0>() as usize);
        let ghost k1 = choose|k: TypeId| f1 == #[trigger] components.lookup_key(k, vstd::layout::size_of::<C1>() as usize);
        let r = match (f0, f1) {
            (Some(a), Some(b)) => Some(vec![a, b]),
            _ => None,
        };
        proof {
            if r is Some {
                assert(r->Some_0@ =~= seq![f0->Some_0, f1->Some_0]);
            }
            assert(match (components.lookup_key(k0, vstd::layout::size_of::<C0>() as usize), components.lookup_key(k1, vstd::layout::size_of::<C1>() as usize)) {
                (Some(a), Some(b)) => (r is Some) && (match r { Some(ids) => ids@, None => Seq::empty() }) == seq![a, b],
                _ => !(r is Some),
            });
        }
        r
    }

    open spec fn parts_spec(item: (C0, C1), ids: Seq<ComponentId>) -> Seq<(ComponentId, Seq<u8>)> {
        seq![(ids[0], item.0.bytes_spec()), (ids[1], item.1.bytes_spec())]
    }

    fn parts_of(item: &(C0, C1), ids: &Vec<ComponentId>, Ghost(components): Ghost<&Components>) -> (r: Vec<(ComponentId, Vec<u8>)>) {
        let a = item.0.to_bytes();
        let b = item.1.to_bytes();
        assert(ids@.contains(ids@[0]));
        assert(ids@.contains(ids@[1]));
        vec![(ids[0], a), (ids[1], b)]
    }

    fn fetch(table: &Table, ids: &Vec<ComponentId>, row: TableRow, Ghost(components): Ghost<&Components>) -> (r: (C0, C1)) {
        assert(table.key().contains(ids@[0]));
        assert(table.key().contains(ids@[1]));
        let a = fetch_one::<C0>(table, ids[0], row, Ghost(components));
        let b = fetch_one::<C1>(table, ids[1], row, Ghost(components));
        (a, b)
    }
}

/// Table ids in strictly increasing order.
pub open spec fn is_ascending_tables(ids: Seq<TableId>) -> bool {
    forall|i: int, j: int| 0 <= i < j < ids.len() ==> (#[trigger] ids[i]).0 < (#[trigger] ids[j]).0
}

/// The rows still to visit: from row `r` of the `t`-th matched table on, table by table
/// and row by row.
pub open spec fn rows_from(lens: Seq<nat>, matched: Seq<TableId>, t: int, r: int) -> Seq<(TableId, int)>
    decreases matched.len() - t, lens[matched[t].0 as int] - r,
    when 0 <= t && 0 <= r
{
    if t >= matched.len() {
        Seq::empty()
    } else if r >= lens[matched[t].0 as int] {
        rows_from(lens, matched, t + 1, 0)
    } else {
        seq![(matched[t], r)] + rows_from(lens, matched, t, r + 1)
    }
}

/// The rows from row `r` of the `t`-th matched table on are every row of that table from
/// `r` and every row of the later matched tables, each once, in increasing order of table
/// and then of row.
pub proof fn lemma_rows_from(lens: Seq<nat>, matched: Seq<TableId>, t: int, r: int)
    requires
        0 <= t,
        0 <= r,
        is_ascending_tables(matched),
        forall|k: int| 0 <= k < matched.len() ==> (#[trigger] matched[k]).0 < lens.len(),
    ensures
        forall|k: int|
            0 <= k < rows_from(lens, matched, t, r).len() ==> {
                let p = #[trigger] rows_from(lens, matched, t, r)[k];
                &&& exists|j: int| t <= j < matched.len() && matched[j] == p.0 && (j == t ==> r <= p.1)
                &&& 0 <= p.1 < lens[p.0.0 as int]
                &&& p.0.0 < lens.len()
            },
        forall|j: int, row: int|
            t <= j < matched.len() && (j == t ==> r <= row) && 0 <= row < lens[matched[j].0 as int]
                ==> #[trigger] rows_from(lens, matched, t, r).contains((matched[j], row)),
        forall|k1: int, k2: int|
            0 <= k1 < k2 < rows_from(lens, matched, t, r).len() ==> {
                let lo = #[trigger] rows_from(lens, matched, t, r)[k1];
                let hi = #[trigger] rows_from(lens, matched, t, r)[k2];
                lo.0.0 < hi.0.0 || (lo.0 == hi.0 && lo.1 < hi.1)
            },
    decreases matched.len() - t, lens[matched[t].0 as int] - r,
{
    let rows = rows_from(lens, matched, t, r);
    if t >= matched.len() {
    } else if r >= lens[matched[t].0 as int] {
        lemma_rows_from(lens, matched, t + 1, 0);
        assert(rows == rows_from(lens, matched, t + 1, 0));
        assert forall|j: int, row: int|
            t <= j < matched.len() && (j == t ==> r <= row) && 0 <= row < lens[matched[j].0 as int]
            implies #[trigger] rows.contains((matched[j], row)) by {
            assert(j != t);
        }
        assert forall|k: int| 0 <= k < rows.len() implies {
            let p = #[trigger] rows[k];
            &&& exists|j: int| t <= j < matched.len() && matched[j] == p.0 && (j == t ==> r <= p.1)
            &&& 0 <= p.1 < lens[p.0.0 as int]
            &&& p.0.0 < lens.len()
        } by {
            let p = rows[k];
            let j = choose|j: int| t + 1 <= j < matched.len() && matched[j] == p.0 && (j == t + 1 ==> 0 <= p.1);
            assert(t <= j < matched.len() && matched[j] == p.0 && (j == t ==> r <= p.1));
        }
    } else {
        let rest = rows_from(lens, matched, t, r + 1);
        lemma_rows_from(lens, matched, t, r + 1);
        assert(rows == seq![(matched[t], r)] + rest);
        assert forall|k: int| 0 <= k < rows.len() implies {
            let p = #[trigger] rows[k];
            &&& exists|j: int| t <= j < matched.len() && matched[j] == p.0 && (j == t ==> r <= p.1)
            &&& 0 <= p.1 < lens[p.0.0 as int]
            &&& p.0.0 < lens.len()
        } by {
            if k > 0 {
                assert(rows[k] == rest[k - 1]);
                let p = rest[k - 1];
                let j = choose|j: int| t <= j < matched.len() && matched[j] == p.0 && (j == t ==> r + 1 <= p.1);
                assert(t <= j < matched.len() && matched[j] == p.0 && (j == t ==> r <= p.1));
            } else {
                assert(rows[0] == (matched[t], r));
            }
        }
        assert forall|j: int, row: int|
            t <= j < matched.len() && (j == t ==> r <= row) && 0 <= row < lens[matched[j].0 as int]
            implies #[trigger] rows.contains((matched[j], row)) by {
            if j == t && row == r {
                assert(rows[0] == (matched[j], row));
            } else {
                assert(rest.contains((matched[j], row)));
                let k = choose|k: int| 0 <= k < rest.len() && rest[k] == (matched[j], row);
                assert(rows[k + 1] == (matched[j], row));
            }
        }
        assert forall|k1: int, k2: int|
            0 <= k1 < k2 < rows.len() implies {
                let lo = #[trigger] rows[k1];
                let hi = #[trigger] rows[k2];
                lo.0.0 < hi.0.0 || (lo.0 == hi.0 && lo.1 < hi.1)
            } by {
            assert(rows[k2] == rest[k2 - 1]);
            if k1 == 0 {
                let hi = rest[k2 - 1];
                let j = choose|j: int| t <= j < matched.len() && matched[j] == hi.0 && (j == t ==> r + 1 <= hi.1);
                if j > t {
                    assert(matched[t].0 < matched[j].0);
                }
            } else {
                assert(rows[k1] == rest[k1 - 1]);
            }
        }
    }
}

/// Query completeness: the rows that a new query visits hold exactly the live entities
/// whose components include all of the query's, each once, in increasing order of table
/// and then of row.
pub proof fn lemma_query_completeness(world: &World, matched: Seq<TableId>, ids: Seq<ComponentId>)
    requires
        world.wf(),
        ids.len() > 0,
        is_ascending_tables(matched),
        forall|k: int| 0 <= k < matched.len() ==> (#[trigger] matched[k]).0 < world.table_seq().len(),
        forall|t: int| #![trigger matched.contains(TableId(t as usize))]
            0 <= t < world.table_seq().len() ==> (matched.contains(TableId(t as usize))
            <==> crate::archetype::is_superset(world.table_seq()[t].key(), ids)),
    ensures
        forall|k: int|
            0 <= k < rows_from(world.table_lens(), matched, 0, 0).len() ==> {
                let p = #[trigger] rows_from(world.table_lens(), matched, 0, 0)[k];
                let e = world.table_seq()[p.0.0 as int].entities()[p.1];
                &&& world.location(e) is Some
                &&& world.location(e)->Some_0.table_id == p.0
                &&& world.location(e)->Some_0.table_row.0 == p.1
                &&& forall|x: int| 0 <= x < ids.len() ==> world.data(e)->Some_0.contains_key(#[trigger] ids[x])
            },
        forall|e: Entity|
            #![trigger world.data(e)]
            world.data(e) is Some && (forall|x: int| 0 <= x < ids.len() ==> world.data(e)->Some_0.contains_key(#[trigger] ids[x]))
                ==> rows_from(world.table_lens(), matched, 0, 0).contains(
                (world.location(e)->Some_0.table_id, world.location(e)->Some_0.table_row.0 as int),
            ),
        forall|k1: int, k2: int|
            0 <= k1 < k2 < rows_from(world.table_lens(), matched, 0, 0).len() ==> {
                let lo = #[trigger] rows_from(world.table_lens(), matched, 0, 0)[k1];
                let hi = #[trigger] rows_from(world.table_lens(), matched, 0, 0)[k2];
                lo.0.0 < hi.0.0 || (lo.0 == hi.0 && lo.1 < hi.1)
            },
{
    let tables = world.table_seq();
    let rows = rows_from(world.table_lens(), matched, 0, 0);
    lemma_rows_from(world.table_lens(), matched, 0, 0);
    world.lemma_rows();
    world.lemma_tables();
    assert forall|k: int| 0 <= k < rows.len() implies {
        let p = #[trigger] rows[k];
        let e = tables[p.0.0 as int].entities()[p.1];
        &&& world.location(e) is Some
        &&& world.location(e)->Some_0.table_id == p.0
        &&& world.location(e)->Some_0.table_row.0 == p.1
        &&& forall|x: int| 0 <= x < ids.len() ==> world.data(e)->Some_0.contains_key(#[trigger] ids[x])
    } by {
        let p = rows[k];
        let t = p.0.0 as int;
        let e = tables[t].entities()[p.1];
        assert(e == tables[t].entities()[p.1]);
        let j = choose|j: int| 0 <= j < matched.len() && matched[j] == p.0 && (j == 0 ==> 0 <= p.1);
        assert(matched.contains(TableId(t as usize)));
        assert(crate::archetype::is_superset(tables[t].key(), ids));
    }
    assert forall|e: Entity|
        #![trigger world.data(e)]
        world.data(e) is Some && (forall|x: int| 0 <= x < ids.len() ==> world.data(e)->Some_0.contains_key(#[trigger] ids[x]))
        implies rows.contains((world.location(e)->Some_0.table_id, world.location(e)->Some_0.table_row.0 as int)) by {
        let l = world.location(e)->Some_0;
        let t = l.table_id.0 as int;
        assert(crate::archetype::is_superset(tables[t].key(), ids)) by {
            assert forall|x: int| 0 <= x < ids.len() implies tables[t].key().contains(#[trigger] ids[x]) by {
                assert(world.data(e)->Some_0.contains_key(ids[x]));
            }
        }
        assert(matched.contains(TableId(t as usize)));
        let j = choose|j: int| 0 <= j < matched.len() && matched[j] == TableId(t as usize);
        assert(tables[matched[j].0 as int].spec_len() > l.table_row.0);
        assert(rows.contains((matched[j], l.table_row.0 as int)));
    }
}

/// `m` with each part written over it in turn.
pub open spec fn apply_parts(m: Map<ComponentId, Seq<u8>>, parts: Seq<(ComponentId, Seq<u8>)>) -> Map<ComponentId, Seq<u8>>
    decreases parts.len(),
{
    if parts.len() == 0 {
        m
    } else {
        apply_parts(m, parts.drop_last()).insert(parts.last().0, parts.last().1)
    }
}

/// An iteration over the rows of every table whose components include the query's, in
/// increasing table order and, within a table, in increasing row order.
pub struct Query<'w, Q: Queryable> {
    world: &'w World,
    ids: Vec<ComponentId>,
    matched_tables: Vec<TableId>,
    current_table: usize,
    current_row: usize,
    shape: PhantomData<Q>,
}

impl<'w, Q: Queryable> Query<'w, Q> {
    /// The ids of the query's component types; empty when one of them is not registered.
    pub closed spec fn ids(&self) -> Seq<ComponentId> {
        self.ids@
    }

    /// The tables the query visits, in increasing order.
    pub closed spec fn matched(&self) -> Seq<TableId> {
        self.matched_tables@
    }

    pub closed spec fn world(&self) -> World {
        *self.world
    }

    /// The rows still to visit.
    pub closed spec fn remaining(&self) -> Seq<(TableId, int)> {
        rows_from(self.world.table_lens(), self.matched_tables@, self.current_table as int, self.current_row as int)
    }

    pub closed spec fn wf(&self) -> bool {
        &&& self.world.wf()
        &&& forall|k: int| 0 <= k < self.matched_tables@.len() ==> {
            &&& (#[trigger] self.matched_tables@[k]).0 < self.world.table_seq().len()
            &&& crate::archetype::is_superset(self.world.table_seq()[self.matched_tables@[k].0 as int].key(), self.ids@)
        }
        &&& self.matched_tables@.len() > 0 ==> Q::ids_fit(self.world.registry(), self.ids@)
    }

    /// The query over `world`: it visits, in increasing order, every table whose components
    /// include all of the query's, or none when one of its types is not registered.
    pub fn new(world: &'w World) -> (r: Self)
        requires
            world.wf(),
        ensures
            r.wf(),
            r.world() == *world,
            Q::found(world.registry(), r.ids().len() > 0, r.ids()),
            r.remaining() == rows_from(world.table_lens(), r.matched(), 0, 0),
            is_ascending_tables(r.matched()),
            forall|t: int| #![trigger r.matched().contains(TableId(t as usize))]
                0 <= t < world.table_seq().len() ==> (r.matched().contains(TableId(t as usize))
                <==> (r.ids().len() > 0 && crate::archetype::is_superset(world.table_seq()[t].key(), r.ids()))),
            forall|k: int| 0 <= k < r.matched().len() ==> (#[trigger] r.matched()[k]).0 < world.table_seq().len(),
    {
        proof {
            world.lemma_tables();
        }
        let (ids, matched_tables) = match Q::component_ids(world.components()) {
            Some(ids) => {
                let (archetype_ids, table_ids) = world.archetypes().get_query_archetypes(ids.as_slice());
                proof {
                    assert forall|k: int| 0 <= k < table_ids@.len() implies (#[trigger] table_ids@[k]).0 == archetype_ids@[k].0 by {
                        assert(archetype_ids@[k].0 < world.table_seq().len());
                    }
                    assert forall|t: int| #![trigger table_ids@.contains(TableId(t as usize))]
                        0 <= t < world.table_seq().len() implies (table_ids@.contains(TableId(t as usize))
                        <==> crate::archetype::is_superset(world.table_seq()[t].key(), ids@)) by {
                        if table_ids@.contains(TableId(t as usize)) {
                            let k = choose|k: int| 0 <= k < table_ids@.len() && table_ids@[k] == TableId(t as usize);
                            assert(archetype_ids@[k] == ArchetypeId(t as usize));
                            assert(archetype_ids@.contains(ArchetypeId(t as usize)));
                        }
                        if crate::archetype::is_superset(world.table_seq()[t].key(), ids@) {
                            assert(archetype_ids@.contains(ArchetypeId(t as usize)));
                            let k = choose|k: int| 0 <= k < archetype_ids@.len() && archetype_ids@[k] == ArchetypeId(t as usize);
                            assert(table_ids@[k] == TableId(t as usize));
                        }
                    }
                    assert forall|k: int| 0 <= k < table_ids@.len() implies {
                        &&& (#[trigger] table_ids@[k]).0 < world.table_seq().len()
                        &&& crate::archetype::is_superset(world.table_seq()[table_ids@[k].0 as int].key(), ids@)
                    } by {
                        let a = archetype_ids@[k].0 as int;
                        assert(archetype_ids@.contains(ArchetypeId(a as usize)));
                    }
                }
                (ids, table_ids)
            },
            None => (Vec::new(), Vec::new()),
        };
        Query { world, ids, matched_tables, current_table: 0, current_row: 0, shape: PhantomData }
    }

    /// The item of the next row, none when every row has been visited.
    pub fn next(&mut self) -> (r: Option<Q::Item>)
        requires
            old(self).wf(),
        ensures
            final(self).wf(),
            final(self).world() == old(self).world(),
            final(self).ids() == old(self).ids(),
            final(self).matched() == old(self).matched(),
            old(self).remaining().len() == 0 ==> r is None && final(self).remaining().len() == 0,
            old(self).remaining().len() > 0 ==> {
                let (t, row) = old(self).remaining()[0];
                &&& r == Some(Q::item_of(old(self).world().table_seq()[t.0 as int].row_data(row), old(self).ids()))
                &&& final(self).remaining() == old(self).remaining().drop_first()
            },
    {
        proof {
            self.world.lemma_tables();
        }
        while self.current_table < self.matched_tables.len()
            invariant
                self.wf(),
                self.world == old(self).world,
                self.ids@ == old(self).ids@,
                self.matched_tables@ == old(self).matched_tables@,
                self.remaining() == old(self).remaining(),
                forall|t: int| 0 <= t < self.world.table_seq().len() ==> {
                    &&& (#[trigger] self.world.table_seq()[t]).wf()
                    &&& self.world.table_seq()[t].sizes_match(&self.world.registry())
                },
            decreases self.matched_tables@.len() - self.current_table,
        {
            let tid = self.matched_tables[self.current_table];
            let table = self.world.tables().get(tid).unwrap();
            if self.current_row < table.len() {
                let row = self.current_row;
                self.current_row = row + 1;
                let ghost components = self.world.registry();
                let item = Q::fetch(table, &self.ids, TableRow(row), Ghost(&components));
                return Some(item);
            }
            self.current_table = self.current_table + 1;
            self.current_row = 0;
        }
        None
    }
}

/// A query with exclusive access to the store: it visits the rows that [`Query`] visits,
/// and can overwrite the values of the row it visited last. While it lives, nothing else
/// can reach the store, so no two queries can write the same values at once.
pub struct QueryMut<'w, Q: Queryable> {
    world: &'w mut World,
    ids: Vec<ComponentId>,
    matched_tables: Vec<TableId>,
    current_table: usize,
    current_row: usize,
    last: Option<Entity>,
    shape: PhantomData<Q>,
}

impl<'w, Q: Queryable> QueryMut<'w, Q> {
    pub closed spec fn ids(&self) -> Seq<ComponentId> {
        self.ids@
    }

    pub closed spec fn matched(&self) -> Seq<TableId> {
        self.matched_tables@
    }

    pub closed spec fn world(&self) -> World {
        *self.world
    }

    /// The entity of the row visited last, if there is one.
    pub closed spec fn last(&self) -> Option<Entity> {
        self.last
    }

    /// The rows still to visit.
    pub closed spec fn remaining(&self) -> Seq<(TableId, int)> {
        rows_from(self.world.table_lens(), self.matched_tables@, self.current_table as int, self.current_row as int)
    }

    pub closed spec fn wf(&self) -> bool {
        &&& self.world.wf()
        &&& forall|k: int| 0 <= k < self.matched_tables@.len() ==> {
            &&& (#[trigger] self.matched_tables@[k]).0 < self.world.table_seq().len()
            &&& crate::archetype::is_superset(self.world.table_seq()[self.matched_tables@[k].0 as int].key(), self.ids@)
        }
        &&& self.matched_tables@.len() > 0 ==> Q::ids_fit(self.world.registry(), self.ids@)
        &&& self.last matches Some(e) ==> {
            &&& self.world.data(e) is Some
            &&& forall|x: int| 0 <= x < self.ids@.len() ==> self.world.data(e)->Some_0.contains_key(#[trigger] self.ids@[x])
            &&& Q::ids_fit(self.world.registry(), self.ids@)
        }
    }

    /// The query over `world`; see [`Query::new`].
    pub fn new(world: &'w mut World) -> (r: Self)
        requires
            old(world).wf(),
        ensures
            r.wf(),
            r.world() == *old(world),
            Q::found(old(world).registry(), r.ids().len() > 0, r.ids()),
            r.last() is None,
            r.remaining() == rows_from(old(world).table_lens(), r.matched(), 0, 0),
            is_ascending_tables(r.matched()),
            forall|t: int| #![trigger r.matched().contains(TableId(t as usize))]
                0 <= t < old(world).table_seq().len() ==> (r.matched().contains(TableId(t as usize))
                <==> (r.ids().len() > 0 && crate::archetype::is_superset(old(world).table_seq()[t].key(), r.ids()))),
    {
        let q = Query::<Q>::new(world);
        let ids = q.ids;
        let matched_tables = q.matched_tables;
        QueryMut { world, ids, matched_tables, current_table: 0, current_row: 0, last: None, shape: PhantomData }
    }

    /// The item of the next row, none when every row has been visited; see [`Query::next`].
    pub fn next(&mut self) -> (r: Option<Q::Item>)
        requires
            old(self).wf(),
        ensures
            final(self).wf(),
            final(self).world() == old(self).world(),
            final(self).ids() == old(self).ids(),
            final(self).matched() == old(self).matched(),
            old(self).remaining().len() == 0 ==> r is None && final(self).remaining().len() == 0,
            old(self).remaining().len() > 0 ==> {
                let (t, row) = old(self).remaining()[0];
                &&& r == Some(Q::item_of(old(self).world().table_seq()[t.0 as int].row_data(row), old(self).ids()))
                &&& final(self).remaining() == old(self).remaining().drop_first()
                &&& final(self).last() == Some(old(self).world().table_seq()[t.0 as int].entities()[row])
            },
    {
        proof {
            self.world.lemma_tables();
            self.world.lemma_rows();
        }
        while self.current_table < self.matched_tables.len()
            invariant
                self.wf(),
                *self.world == *old(self).world,
                self.ids@ == old(self).ids@,
                self.matched_tables@ == old(self).matched_tables@,
                self.remaining() == old(self).remaining(),
                forall|t: int| 0 <= t < self.world.table_seq().len() ==> {
                    &&& (#[trigger] self.world.table_seq()[t]).wf()
                    &&& self.world.table_seq()[t].sizes_match(&self.world.registry())
                },
                forall|t: int, r: int|
                    0 <= t < self.world.table_seq().len() && 0 <= r < self.world.table_seq()[t].spec_len() ==> {
                        let e = #[trigger] self.world.table_seq()[t].entities()[r];
                        &&& self.world.location(e) is Some
                        &&& self.world.location(e)->Some_0.table_id.0 == t
                        &&& self.world.location(e)->Some_0.table_row.0 == r
                    },
            decreases self.matched_tables@.len() - self.current_table,
        {
            let tid = self.matched_tables[self.current_table];
            let table = self.world.tables().get(tid).unwrap();
            if self.current_row < table.len() {
                let row = self.current_row;
                let ghost components = self.world.registry();
                let item = Q::fetch(table, &self.ids, TableRow(row), Ghost(&components));
                let e = table.entity(TableRow(row)).unwrap();
                self.current_row = row + 1;
                self.last = Some(e);
                proof {
                    let t = tid.0 as int;
                    assert(self.world.data(e) == Some(self.world.table_seq()[t].row_data(row as int)));
                    assert forall|x: int| 0 <= x < self.ids@.len() implies self.world.data(e)->Some_0.contains_key(#[trigger] self.ids@[x]) by {
                        assert(self.world.table_seq()[t].key().contains(self.ids@[x]));
                    }
                }
                return Some(item);
            }
            self.current_table = self.current_table + 1;
            self.current_row = 0;
        }
        None
    }

    /// Writes `item` over the values of the row visited last: each part of the item takes
    /// the place of the value with its id. Returns whether a row had been visited; nothing
    /// changes otherwise.
    pub fn write(&mut self, item: Q::Item) -> (r: bool)
        requires
            old(self).wf(),
        ensures
            final(self).wf(),
            r == old(self).last() is Some,
            final(self).ids() == old(self).ids(),
            final(self).matched() == old(self).matched(),
            final(self).remaining() == old(self).remaining(),
            final(self).last() == old(self).last(),
            final(self).world().registry() == old(self).world().registry(),
            old(self).last() matches Some(e) ==> {
                &&& final(self).world().data(e) == Some(apply_parts(
                    old(self).world().data(e)->Some_0,
                    Q::parts_spec(item, old(self).ids()),
                ))
                &&& forall|x: Entity| x != e ==> #[trigger] final(self).world().data(x) == old(self).world().data(x)
            },
            old(self).last() is None ==> final(self).world() == old(self).world(),
    {
        let e = match self.last {
            Some(e) => e,
            None => return false,
        };
        let ghost components = self.world.registry();
        let parts = Q::parts_of(&item, &self.ids, Ghost(&components));
        let ghost w0 = *self.world;
        let ghost spec_parts = Q::parts_spec(item, self.ids@);
        let mut i: usize = 0;
        while i < parts.len()
            invariant
                i <= parts@.len(),
                parts@.len() == spec_parts.len(),
                forall|k: int| 0 <= k < parts@.len() ==> {
                    &&& (#[trigger] parts@[k]).0 == spec_parts[k].0
                    &&& parts@[k].1@ == spec_parts[k].1
                    &&& self.ids@.contains(parts@[k].0)
                    &&& components.is_registered(parts@[k].0)
                    &&& parts@[k].1@.len() == components.size_of(parts@[k].0)
                },
                self.world.wf(),
                self.world.registry() == components,
                self.last == Some(e),
                self.ids@ == old(self).ids@,
                self.matched_tables@ == old(self).matched_tables@,
                self.current_table == old(self).current_table,
                self.current_row == old(self).current_row,
                self.world.table_lens() == w0.table_lens(),
                self.world.table_seq().len() == w0.table_seq().len(),
                forall|t: int| 0 <= t < w0.table_seq().len() ==> #[trigger] self.world.table_seq()[t].key() == w0.table_seq()[t].key(),
                self.world.data(e) == Some(apply_parts(w0.data(e)->Some_0, spec_parts.take(i as int))),
                forall|x: Entity| x != e ==> #[trigger] self.world.data(x) == w0.data(x),
                w0.data(e) is Some,
                forall|x: int| 0 <= x < self.ids@.len() ==> w0.data(e)->Some_0.contains_key(#[trigger] self.ids@[x]),
            decreases parts@.len() - i,
        {
            let ghost before = apply_parts(w0.data(e)->Some_0, spec_parts.take(i as int));
            proof {
                let id = parts@[i as int].0;
                let k = choose|k: int| 0 <= k < self.ids@.len() && self.ids@[k] == id;
                assert(w0.data(e)->Some_0.contains_key(self.ids@[k]));
                assert(apply_parts(w0.data(e)->Some_0, spec_parts.take(i as int)).dom().contains(id)) by {
                    lemma_apply_parts_keeps(w0.data(e)->Some_0, spec_parts.take(i as int), id);
                }
            }
            let ok = self.world.set_component(e, parts[i].0, parts[i].1.as_slice());
            proof {
                assert(spec_parts.take(i + 1).drop_last() =~= spec_parts.take(i as int));
                assert(spec_parts.take(i + 1).last() == spec_parts[i as int]);
            }
            i = i + 1;
        }
        proof {
            assert(spec_parts.take(i as int) =~= spec_parts);
            assert forall|k: int| 0 <= k < self.matched_tables@.len() implies {
                &&& (#[trigger] self.matched_tables@[k]).0 < self.world.table_seq().len()
                &&& crate::archetype::is_superset(self.world.table_seq()[self.matched_tables@[k].0 as int].key(), self.ids@)
            } by {
                assert(self.world.table_seq()[self.matched_tables@[k].0 as int].key() == w0.table_seq()[self.matched_tables@[k].0 as int].key());
            }
            assert forall|x: int| 0 <= x < self.ids@.len() implies self.world.data(e)->Some_0.contains_key(#[trigger] self.ids@[x]) by {
                lemma_apply_parts_keeps(w0.data(e)->Some_0, spec_parts, self.ids@[x]);
            }
        }
        true
    }
}

/// Writing parts over a map keeps every key it had.
pub proof fn lemma_apply_parts_keeps(m: Map<ComponentId, Seq<u8>>, parts: Seq<(ComponentId, Seq<u8>)>, id: ComponentId)
    requires
        m.contains_key(id),
    ensures
        apply_parts(m, parts).contains_key(id),
    decreases parts.len(),
{
    if parts.len() > 0 {
        lemma_apply_parts_keeps(m, parts.drop_last(), id);
    }
}

} // verus!
