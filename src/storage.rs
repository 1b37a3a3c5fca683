use vstd::prelude::*;

use crate::component::{ComponentId, ComponentInfo, Components};
use crate::entity::Entity;

verus! {

/// Dense index of a table, in creation order.
#[derive(Debug, Clone, Copy, PartialEq, Eq, Hash, PartialOrd, Ord, Structural)]
pub struct TableId(pub usize);

impl TableId {
    pub fn index(&self) -> (r: usize)
        ensures
            r == self.0,
    {
        self.0
    }
}

/// A row of a table.
#[derive(Debug, Clone, Copy, PartialEq, Eq, Hash, PartialOrd, Ord, Structural)]
pub struct TableRow(pub usize);

impl TableRow {
    pub fn index(&self) -> (r: usize)
        ensures
            r == self.0,
    {
        self.0
    }
}

/// Ids in strictly increasing order: the canonical form of a set of component types.
pub open spec fn is_canonical(ids: Seq<ComponentId>) -> bool {
    forall|i: int, j: int| 0 <= i < j < ids.len() ==> (#[trigger] ids[i]).0 < (#[trigger] ids[j]).0
}

/// The position of `id` in a canonical sequence that holds it.
pub open spec fn position_of(ids: Seq<ComponentId>, id: ComponentId) -> int {
    choose|j: int| 0 <= j < ids.len() && ids[j] == id
}

pub proof fn lemma_position_of(ids: Seq<ComponentId>, j: int)
    requires
        is_canonical(ids),
        0 <= j < ids.len(),
    ensures
        position_of(ids, ids[j]) == j,
{
    let k = position_of(ids, ids[j]);
    assert(0 <= k < ids.len() && ids[k] == ids[j]);
    if k < j {
        assert(ids[k].0 < ids[j].0);
    } else if k > j {
        assert(ids[j].0 < ids[k].0);
    }
}

/// A canonical sequence is determined by the ids it holds.
pub proof fn lemma_canonical_unique(a: Seq<ComponentId>, b: Seq<ComponentId>)
    requires
        is_canonical(a),
        is_canonical(b),
        forall|x: ComponentId| a.contains(x) <==> b.contains(x),
    ensures
        a == b,
    decreases a.len(),
{
    if a.len() == 0 {
        if b.len() > 0 {
            assert(b.contains(b[0]));
        }
        assert(a =~= b);
    } else {
        assert(a.contains(a[0]));
        assert(b.contains(a[0]));
        assert(b.len() > 0);
        assert(b.contains(b[0]));
        assert(a.contains(b[0]));
        let ka = choose|k: int| 0 <= k < b.len() && b[k] == a[0];
        let kb = choose|k: int| 0 <= k < a.len() && a[k] == b[0];
        if ka > 0 {
            assert(b[0].0 < b[ka].0);
            if kb > 0 {
                assert(a[0].0 < a[kb].0);
            }
        }
        assert(a[0] == b[0]) by {
            if ka > 0 && kb > 0 {
                assert(b[0].0 < b[ka].0);
                assert(a[0].0 < a[kb].0);
            } else if ka > 0 {
                assert(a[0] == b[0]);
            }
        }
        let a1 = a.drop_first();
        let b1 = b.drop_first();
        assert forall|x: ComponentId| a1.contains(x) <==> b1.contains(x) by {
            if a1.contains(x) {
                let k = choose|k: int| 0 <= k < a1.len() && a1[k] == x;
                assert(a[k + 1] == x);
                assert(a[0].0 < a[k + 1].0);
                assert(b.contains(x));
                let j = choose|j: int| 0 <= j < b.len() && b[j] == x;
                assert(j != 0);
                assert(b1[j - 1] == x);
            }
            if b1.contains(x) {
                let k = choose|k: int| 0 <= k < b1.len() && b1[k] == x;
                assert(b[k + 1] == x);
                assert(b[0].0 < b[k + 1].0);
                assert(a.contains(x));
                let j = choose|j: int| 0 <= j < a.len() && a[j] == x;
                assert(j != 0);
                assert(a1[j - 1] == x);
            }
        }
        lemma_canonical_unique(a1, b1);
        assert(a =~= b) by {
            assert forall|k: int| 0 <= k < a.len() implies a[k] == b[k] by {
                if k > 0 {
                    assert(a[k] == a1[k - 1]);
                    assert(b[k] == b1[k - 1]);
                }
            }
        }
    }
}

proof fn lemma_row_bounds(r: int, len: int, s: int)
    requires
        0 <= r < len,
        0 <= s,
    ensures
        0 <= r * s,
        r * s + s <= len * s,
{
    assert(0 <= r * s) by (nonlinear_arith)
        requires
            0 <= r,
            0 <= s,
    ;
    assert(r * s + s <= len * s) by (nonlinear_arith)
        requires
            r + 1 <= len,
            0 <= s,
    ;
}

proof fn lemma_rows_apart(a: int, b: int, s: int)
    requires
        0 <= a < b,
        0 <= s,
    ensures
        a * s + s <= b * s,
{
    assert(a * s + s <= b * s) by (nonlinear_arith)
        requires
            a + 1 <= b,
            0 <= s,
    ;
}

/// Relies on `Vec::capacity`: the number of elements the vector can hold without
/// reallocating, never less than its length.
#[verifier::external_body]
fn vec_capacity(v: &Vec<u8>) -> (r: usize)
    ensures
        r >= v@.len(),
{
    v.capacity()
}

/// One component's values in one table: a contiguous buffer of rows of a fixed size.
#[derive(Debug)]
pub struct Column {
    item_size: usize,
    data: Vec<u8>,
    len: usize,
}

impl Column {
    pub closed spec fn spec_item_size(&self) -> usize {
        self.item_size
    }

    /// The rows, each as the bytes of one value.
    pub closed spec fn rows(&self) -> Seq<Seq<u8>> {
        Seq::new(
            self.len as nat,
            |r: int| self.data@.subrange(r * self.item_size, r * self.item_size + self.item_size),
        )
    }

    pub closed spec fn wf(&self) -> bool {
        self.data@.len() == self.len * self.item_size
    }

    /// An empty column for values of the given component, with room for `capacity` rows.
    pub fn with_capacity(component_info: &ComponentInfo, capacity: usize) -> (r: Column)
        ensures
            r.wf(),
            r.rows() == Seq::<Seq<u8>>::empty(),
            r.spec_item_size() == component_info.spec_size(),
    {
        let item_size = component_info.size();
        let bytes = match capacity.checked_mul(item_size) {
            Some(n) => n,
            None => 0,
        };
        let r = Column { item_size, data: Vec::with_capacity(bytes), len: 0 };
        assert(r.rows() =~= Seq::<Seq<u8>>::empty());
        r
    }

    /// Makes room for `additional` more rows; the rows stay as they are.
    pub fn reserve(&mut self, additional: usize)
        requires
            old(self).wf(),
        ensures
            final(self).wf(),
            final(self).rows() == old(self).rows(),
            final(self).spec_item_size() == old(self).spec_item_size(),
    {
        if let Some(n) = additional.checked_mul(self.item_size) {
            self.data.reserve(n);
        }
        assert(self.rows() =~= old(self).rows());
    }

    pub fn len(&self) -> (r: usize)
        ensures
            r == self.rows().len(),
    {
        self.len
    }

    /// The size of the column's values.
    pub fn item_size(&self) -> (r: usize)
        ensures
            r == self.spec_item_size(),
    {
        self.item_size
    }

    /// How many rows fit without growing the buffer; for values of size zero, as many as
    /// an index can count.
    pub fn capacity(&self) -> (r: usize)
        requires
            self.wf(),
        ensures
            r >= self.rows().len(),
            self.spec_item_size() == 0 ==> r == usize::MAX,
    {
        if self.item_size == 0 {
            proof {
                assert(self.len <= usize::MAX);
            }
            usize::MAX
        } else {
            let bytes = vec_capacity(&self.data);
            let r = bytes / self.item_size;
            assert(r >= self.len) by (nonlinear_arith)
                requires
                    bytes >= self.len * self.item_size,
                    self.item_size > 0,
                    r == bytes / self.item_size,
            ;
            r
        }
    }

    /// Appends a row holding the given bytes.
    pub fn push(&mut self, bytes: &[u8])
        requires
            old(self).wf(),
            bytes@.len() == old(self).spec_item_size(),
            old(self).rows().len() < usize::MAX,
        ensures
            final(self).wf(),
            final(self).rows() == old(self).rows().push(bytes@),
            final(self).spec_item_size() == old(self).spec_item_size(),
    {
        let ghost old_data = self.data@;
        let ghost s = self.item_size as int;
        self.data.extend_from_slice(bytes);
        assert(self.data@ =~= old_data + bytes@) by {
            assert forall|i: int| 0 <= i < self.data@.len() implies self.data@[i] == (old_data
                + bytes@)[i] by {}
        }
        proof {
            lemma_row_bounds(0, 1, s);
        }
        self.len = self.len + 1;
        assert(self.data@.len() == self.len * self.item_size) by (nonlinear_arith)
            requires
                self.data@.len() == old_data.len() + s,
                old_data.len() == (self.len - 1) * s,
                s == self.item_size,
        ;
        assert forall|r: int| 0 <= r < self.len implies #[trigger] self.rows()[r] == old(
            self,
        ).rows().push(bytes@)[r] by {
            lemma_row_bounds(r, self.len as int, s);
            if r < self.len - 1 {
                lemma_row_bounds(r, self.len - 1, s);
                assert(self.rows()[r] =~= old(self).rows()[r]);
            } else {
                assert(self.rows()[r] =~= bytes@);
            }
        }
        assert(self.rows() =~= old(self).rows().push(bytes@));
    }

    /// The bytes of a row.
    pub fn get(&self, row: usize) -> (r: Option<Vec<u8>>)
        requires
            self.wf(),
        ensures
            r is Some <==> row < self.rows().len(),
            r matches Some(v) ==> v@ == self.rows()[row as int],
    {
        if row >= self.len {
            return None;
        }
        let s = self.item_size;
        proof {
            lemma_row_bounds(row as int, self.len as int, s as int);
            assert(self.data@.len() == self.data.len());
        }
        let start = row * s;
        let mut out: Vec<u8> = Vec::new();
        let mut k: usize = 0;
        while k < s
            invariant
                k <= s,
                s == self.item_size,
                start == row * s,
                start + s <= self.data@.len(),
                self.data@.len() <= usize::MAX,
                out@ == self.data@.subrange(start as int, start + k),
            decreases s - k,
        {
            out.push(self.data[start + k]);
            k = k + 1;
            assert(out@ =~= self.data@.subrange(start as int, start + k));
        }
        Some(out)
    }

    /// Overwrites a row with the given bytes.
    pub fn set(&mut self, row: usize, bytes: &[u8])
        requires
            old(self).wf(),
            row < old(self).rows().len(),
            bytes@.len() == old(self).spec_item_size(),
        ensures
            final(self).wf(),
            final(self).rows() == old(self).rows().update(row as int, bytes@),
            final(self).spec_item_size() == old(self).spec_item_size(),
    {
        let s = self.item_size;
        let ghost old_data = self.data@;
        proof {
            lemma_row_bounds(row as int, self.len as int, s as int);
            assert(self.data@.len() == self.data.len());
        }
        let start = row * s;
        let mut k: usize = 0;
        while k < s
            invariant
                k <= s,
                bytes@.len() == s,
                s == self.item_size,
                start == row * s,
                start + s <= old_data.len(),
                old_data.len() <= usize::MAX,
                self.data@.len() == old_data.len(),
                self.len == old(self).len,
                self.item_size == old(self).item_size,
                forall|i: int|
                    0 <= i < old_data.len() ==> #[trigger] self.data@[i] == if start <= i < start
                        + k {
                        bytes@[i - start]
                    } else {
                        old_data[i]
                    },
            decreases s - k,
        {
            self.data.set(start + k, bytes[k]);
            k = k + 1;
        }
        assert forall|r: int| 0 <= r < self.len implies #[trigger] self.rows()[r] == old(
            self,
        ).rows().update(row as int, bytes@)[r] by {
            lemma_row_bounds(r, self.len as int, s as int);
            if r < row {
                lemma_rows_apart(r, row as int, s as int);
                assert(self.rows()[r] =~= old(self).rows()[r]);
            } else if r > row {
                lemma_rows_apart(row as int, r, s as int);
                assert(self.rows()[r] =~= old(self).rows()[r]);
            } else {
                assert(self.rows()[r] =~= bytes@);
            }
        }
        assert(self.rows() =~= old(self).rows().update(row as int, bytes@));
    }

    /// Removes a row: the last row takes its place, and the column is one row shorter.
    pub fn swap_remove(&mut self, row: usize)
        requires
            old(self).wf(),
            row < old(self).rows().len(),
        ensures
            final(self).wf(),
            final(self).rows() == old(self).rows().update(
                row as int,
                old(self).rows().last(),
            ).drop_last(),
            final(self).spec_item_size() == old(self).spec_item_size(),
    {
        let s = self.item_size;
        let last = self.len - 1;
        let ghost old_data = self.data@;
        let ghost old_rows = self.rows();
        proof {
            lemma_row_bounds(row as int, self.len as int, s as int);
            lemma_row_bounds(last as int, self.len as int, s as int);
            assert(self.data@.len() == self.data.len());
        }
        let start = row * s;
        let from = last * s;
        if row < last {
            proof {
                lemma_rows_apart(row as int, last as int, s as int);
            }
            let mut k: usize = 0;
            while k < s
                invariant
                    k <= s,
                    s == self.item_size,
                    start == row * s,
                    from == last * s,
                    start + s <= from,
                    from + s <= old_data.len(),
                    old_data.len() <= usize::MAX,
                    self.data@.len() == old_data.len(),
                    self.len == old(self).len,
                    self.item_size == old(self).item_size,
                    forall|i: int|
                        0 <= i < old_data.len() ==> #[trigger] self.data@[i] == if start <= i
                            < start + k {
                            old_data[from + (i - start)]
                        } else {
                            old_data[i]
                        },
                decreases s - k,
            {
                let b = self.data[from + k];
                self.data.set(start + k, b);
                k = k + 1;
            }
        }
        self.data.truncate(from);
        self.len = last;
        assert forall|r: int| 0 <= r < self.len implies #[trigger] self.rows()[r]
            == old_rows.update(row as int, old_rows.last()).drop_last()[r] by {
            lemma_row_bounds(r, self.len as int, s as int);
            if r < row {
                lemma_rows_apart(r, row as int, s as int);
                assert(self.rows()[r] =~= old_rows[r]);
            } else if r > row {
                lemma_rows_apart(row as int, r, s as int);
                assert(self.rows()[r] =~= old_rows[r]);
            } else {
                assert(self.rows()[r] =~= old_rows.last());
            }
        }
        assert(self.rows() =~= old_rows.update(row as int, old_rows.last()).drop_last());
    }
}

/// The values of the entities that have exactly one set of components: a column per
/// component, in the order of the table's canonical key, and the entity of each row.
#[derive(Debug)]
pub struct Table {
    key: Vec<ComponentId>,
    columns: Vec<Column>,
    entities: Vec<Entity>,
}

/// The two id sequences are equal.
pub(crate) fn same_ids(a: &[ComponentId], b: &[ComponentId]) -> (r: bool)
    ensures
        r == (a@ == b@),
{
    if a.len() != b.len() {
        return false;
    }
    let mut i: usize = 0;
    while i < a.len()
        invariant
            a@.len() == b@.len(),
            i <= a@.len(),
            forall|j: int| 0 <= j < i ==> a@[j] == b@[j],
        decreases a@.len() - i,
    {
        if a[i].0 != b[i].0 {
            return false;
        }
        i = i + 1;
    }
    assert(a@ =~= b@);
    true
}

impl Table {
    /// The canonical key: the ids of the table's components, in increasing order.
    pub closed spec fn key(&self) -> Seq<ComponentId> {
        self.key@
    }

    /// The entity of each row.
    pub closed spec fn entities(&self) -> Seq<Entity> {
        self.entities@
    }

    /// The rows of the column at position `j` of the key.
    pub closed spec fn column(&self, j: int) -> Seq<Seq<u8>> {
        self.columns@[j].rows()
    }

    /// The size of the values in the column at position `j` of the key.
    pub closed spec fn item_size(&self, j: int) -> usize {
        self.columns@[j].spec_item_size()
    }

    /// The key is canonical, and every column has one row per entity.
    pub closed spec fn wf(&self) -> bool {
        &&& is_canonical(self.key@)
        &&& self.columns@.len() == self.key@.len()
        &&& forall|j: int|
            0 <= j < self.columns@.len() ==> (#[trigger] self.columns@[j]).wf()
                && self.columns@[j].rows().len() == self.entities@.len()
    }

    pub open spec fn spec_len(&self) -> nat {
        self.entities().len()
    }

    /// Every column holds values of the size that the registry records for its component.
    pub open spec fn sizes_match(&self, components: &Components) -> bool {
        forall|j: int|
            0 <= j < self.key().len() ==> components.is_registered(#[trigger] self.key()[j])
                && self.item_size(j) == components.size_of(self.key()[j])
    }

    /// The values of one row: the bytes of each component of the table.
    pub open spec fn row_data(&self, r: int) -> Map<ComponentId, Seq<u8>> {
        Map::new(
            |id: ComponentId| self.key().contains(id),
            |id: ComponentId| self.column(position_of(self.key(), id))[r],
        )
    }

    /// An empty table for the given canonical ids, with one column per id.
    pub fn from_components(ids: &[ComponentId], components: &Components) -> (r: Table)
        requires
            is_canonical(ids@),
            forall|j: int| 0 <= j < ids@.len() ==> components.is_registered(#[trigger] ids@[j]),
        ensures
            r.wf(),
            r.key() == ids@,
            r.entities() == Seq::<Entity>::empty(),
            r.sizes_match(components),
    {
        let mut key: Vec<ComponentId> = Vec::new();
        let mut columns: Vec<Column> = Vec::new();
        let mut i: usize = 0;
        while i < ids.len()
            invariant
                i <= ids@.len(),
                key@ == ids@.take(i as int),
                columns@.len() == i,
                forall|j: int| 0 <= j < ids@.len() ==> components.is_registered(#[trigger] ids@[j]),
                forall|j: int|
                    0 <= j < i ==> (#[trigger] columns@[j]).wf() && columns@[j].rows().len() == 0
                        && columns@[j].spec_item_size() == components.size_of(ids@[j]),
            decreases ids@.len() - i,
        {
            let id = ids[i];
            let info = components.get_info(&id).unwrap();
            columns.push(Column::with_capacity(info, 0));
            key.push(id);
            i = i + 1;
            assert(key@ =~= ids@.take(i as int));
        }
        assert(key@ =~= ids@);
        Table { key, columns, entities: Vec::new() }
    }

    pub fn len(&self) -> (r: usize)
        ensures
            r == self.spec_len(),
    {
        self.entities.len()
    }

    /// The entity of a row.
    pub fn entity(&self, row: TableRow) -> (r: Option<Entity>)
        ensures
            r is Some <==> row.0 < self.spec_len(),
            r matches Some(e) ==> e == self.entities()[row.0 as int],
    {
        if row.0 < self.entities.len() {
            Some(self.entities[row.0])
        } else {
            None
        }
    }

    /// Makes room in every column for `additional` more rows.
    pub fn reserve(&mut self, additional: usize)
        requires
            old(self).wf(),
        ensures
            final(self).wf(),
            final(self).key() == old(self).key(),
            final(self).entities() == old(self).entities(),
            forall|j: int| 0 <= j < old(self).key().len() ==> #[trigger] final(self).column(j)
                == old(self).column(j) && final(self).item_size(j) == old(self).item_size(j),
    {
        self.entities.reserve(additional);
        let mut i: usize = 0;
        while i < self.columns.len()
            invariant
                self.key@ == old(self).key@,
                self.entities@ == old(self).entities@,
                self.columns@.len() == old(self).columns@.len(),
                i <= self.columns@.len(),
                forall|j: int|
                    0 <= j < self.columns@.len() ==> (#[trigger] self.columns@[j]).wf()
                        && self.columns@[j].rows() == old(self).columns@[j].rows()
                        && self.columns@[j].spec_item_size() == old(self).columns@[j].spec_item_size(),
            decreases self.columns@.len() - i,
        {
            self.columns[i].reserve(additional);
            i = i + 1;
        }
    }

    /// The position in the key of a component of the table.
    fn column_index(&self, id: ComponentId) -> (r: Option<usize>)
        requires
            self.wf(),
        ensures
            r is Some <==> self.key().contains(id),
            r matches Some(j) ==> j < self.key().len() && j == position_of(self.key(), id),
    {
        let mut j: usize = 0;
        while j < self.key.len()
            invariant
                j <= self.key@.len(),
                is_canonical(self.key@),
                forall|k: int| 0 <= k < j ==> self.key@[k] != id,
            decreases self.key@.len() - j,
        {
            if self.key[j].0 == id.0 {
                proof {
                    lemma_position_of(self.key@, j as int);
                }
                return Some(j);
            }
            j = j + 1;
        }
        None
    }

    /// Appends a row for `entity` holding the given values, one per column in key order.
    pub fn allocate(&mut self, entity: Entity, values: &Vec<Vec<u8>>) -> (r: TableRow)
        requires
            old(self).wf(),
            values@.len() == old(self).key().len(),
            forall|j: int|
                0 <= j < values@.len() ==> (#[trigger] values@[j])@.len() == old(self).item_size(j),
        ensures
            final(self).wf(),
            r.0 == old(self).spec_len(),
            final(self).key() == old(self).key(),
            final(self).entities() == old(self).entities().push(entity),
            forall|j: int| 0 <= j < old(self).key().len() ==> #[trigger] final(self).column(j)
                == old(self).column(j).push(values@[j]@) && final(self).item_size(j)
                == old(self).item_size(j),
    {
        let row = self.entities.len();
        self.entities.push(entity);
        let n = self.entities.len();
        let mut i: usize = 0;
        while i < self.columns.len()
            invariant
                self.key@ == old(self).key@,
                self.entities@ == old(self).entities@.push(entity),
                n == self.entities@.len(),
                row == old(self).entities@.len(),
                self.columns@.len() == old(self).columns@.len(),
                values@.len() == self.columns@.len(),
                i <= self.columns@.len(),
                forall|j: int|
                    0 <= j < values@.len() ==> (#[trigger] values@[j])@.len()
                        == old(self).columns@[j].spec_item_size(),
                forall|j: int|
                    0 <= j < self.columns@.len() ==> (#[trigger] self.columns@[j]).wf()
                        && self.columns@[j].spec_item_size() == old(self).columns@[j].spec_item_size()
                        && self.columns@[j].rows() == if j < i {
                        old(self).columns@[j].rows().push(values@[j]@)
                    } else {
                        old(self).columns@[j].rows()
                    },
                old(self).wf(),
            decreases self.columns@.len() - i,
        {
            self.columns[i].push(values[i].as_slice());
            i = i + 1;
        }
        TableRow(row)
    }

    /// The bytes of component `id` in a row, if the table has that component and row.
    pub fn get_component(&self, id: ComponentId, row: TableRow) -> (r: Option<Vec<u8>>)
        requires
            self.wf(),
        ensures
            r is Some <==> self.key().contains(id) && row.0 < self.spec_len(),
            r matches Some(v) ==> v@ == self.row_data(row.0 as int)[id],
    {
        match self.column_index(id) {
            Some(j) => self.columns[j].get(row.0),
            None => None,
        }
    }

    /// Overwrites the value of component `id` in a row; returns whether the table has
    /// that component and row.
    pub fn set_component(&mut self, id: ComponentId, row: TableRow, bytes: &[u8]) -> (r: bool)
        requires
            old(self).wf(),
            old(self).key().contains(id) ==> bytes@.len() == old(self).item_size(
                position_of(old(self).key(), id),
            ),
        ensures
            final(self).wf(),
            r == (old(self).key().contains(id) && row.0 < old(self).spec_len()),
            final(self).key() == old(self).key(),
            final(self).entities() == old(self).entities(),
            forall|j: int| 0 <= j < old(self).key().len() ==> #[trigger] final(self).item_size(j)
                == old(self).item_size(j),
            forall|j: int|
                0 <= j < old(self).key().len() ==> #[trigger] final(self).column(j) == if r && j
                    == position_of(old(self).key(), id) {
                    old(self).column(j).update(row.0 as int, bytes@)
                } else {
                    old(self).column(j)
                },
    {
        match self.column_index(id) {
            Some(j) => {
                if row.0 < self.entities.len() {
                    self.columns[j].set(row.0, bytes);
                    true
                } else {
                    false
                }
            },
            None => false,
        }
    }

    /// Removes a row from every column and from the entity list: the last row takes its
    /// place. Returns the entity that now holds the row, none if the row was the last.
    pub fn swap_remove(&mut self, row: TableRow) -> (r: Option<Entity>)
        requires
            old(self).wf(),
            row.0 < old(self).spec_len(),
        ensures
            final(self).wf(),
            final(self).key() == old(self).key(),
            final(self).entities() == old(self).entities().update(
                row.0 as int,
                old(self).entities().last(),
            ).drop_last(),
            r == if row.0 + 1 < old(self).spec_len() {
                Some(old(self).entities().last())
            } else {
                None::<Entity>
            },
            forall|j: int| 0 <= j < old(self).key().len() ==> #[trigger] final(self).column(j)
                == old(self).column(j).update(row.0 as int, old(self).column(j).last()).drop_last()
                && final(self).item_size(j) == old(self).item_size(j),
    {
        let mut i: usize = 0;
        while i < self.columns.len()
            invariant
                self.key@ == old(self).key@,
                self.entities@ == old(self).entities@,
                self.columns@.len() == old(self).columns@.len(),
                i <= self.columns@.len(),
                row.0 < self.entities@.len(),
                forall|j: int|
                    0 <= j < self.columns@.len() ==> (#[trigger] self.columns@[j]).wf()
                        && self.columns@[j].spec_item_size() == old(self).columns@[j].spec_item_size()
                        && self.columns@[j].rows() == if j < i {
                        old(self).columns@[j].rows().update(
                            row.0 as int,
                            old(self).columns@[j].rows().last(),
                        ).drop_last()
                    } else {
                        old(self).columns@[j].rows()
                    },
                old(self).wf(),
            decreases self.columns@.len() - i,
        {
            self.columns[i].swap_remove(row.0);
            i = i + 1;
        }
        let last = self.entities.len() - 1;
        let moved = self.entities[last];
        self.entities.swap_remove(row.0);
        assert(self.entities@ =~= old(self).entities@.update(
            row.0 as int,
            old(self).entities@.last(),
        ).drop_last());
        if row.0 < last {
            Some(moved)
        } else {
            None
        }
    }
}

impl Table {
    /// The key of a table is canonical, and each column has one value per row, of the
    /// column's size.
    pub proof fn lemma_wf_facts(&self)
        requires
            self.wf(),
        ensures
            is_canonical(self.key()),
            forall|j: int| 0 <= j < self.key().len() ==> (#[trigger] self.column(j)).len() == self.spec_len(),
            forall|j: int, r: int|
                0 <= j < self.key().len() && 0 <= r < self.spec_len() ==> (#[trigger] self.column(j)[r]).len()
                    == self.item_size(j),
    {
        assert forall|j: int, r: int|
            0 <= j < self.key().len() && 0 <= r < self.spec_len() implies (#[trigger] self.column(j)[r]).len()
            == self.item_size(j) by {
            let c = self.columns@[j];
            assert(c.wf());
            lemma_row_bounds(r, c.len as int, c.item_size as int);
        }
    }

    /// A table has at most `usize::MAX` rows.
    pub proof fn lemma_len_bound(&self)
        ensures
            self.spec_len() <= usize::MAX,
    {
        assert(self.entities@.len() == self.entities.len());
    }

    /// After a row is appended, the earlier rows hold what they held.
    pub proof fn lemma_row_data_push(old_t: Table, new_t: Table, values: Seq<Vec<u8>>, r: int)
        requires
            new_t.key() == old_t.key(),
            forall|j: int| 0 <= j < old_t.key().len() ==> #[trigger] new_t.column(j) == old_t.column(j).push(values[j]@),
            0 <= r < old_t.spec_len(),
            old_t.wf(),
        ensures
            new_t.row_data(r) == old_t.row_data(r),
    {
        assert forall|id: ComponentId| #[trigger] new_t.row_data(r).contains_key(id) implies new_t.row_data(r)[id] == old_t.row_data(r)[id] by {
            let j = position_of(old_t.key(), id);
            assert(0 <= j < old_t.key().len() && old_t.key()[j] == id);
            assert(new_t.column(j) == old_t.column(j).push(values[j]@));
        }
        assert(new_t.row_data(r) =~= old_t.row_data(r));
    }

    /// The row that an append adds holds the values appended.
    pub proof fn lemma_row_data_pushed(old_t: Table, new_t: Table, values: Seq<Vec<u8>>)
        requires
            new_t.key() == old_t.key(),
            forall|j: int| 0 <= j < old_t.key().len() ==> #[trigger] new_t.column(j) == old_t.column(j).push(values[j]@),
            old_t.wf(),
        ensures
            forall|id: ComponentId| #[trigger] new_t.row_data(old_t.spec_len() as int).contains_key(id) <==> old_t.key().contains(id),
            forall|j: int| 0 <= j < old_t.key().len() ==> new_t.row_data(old_t.spec_len() as int)[#[trigger] old_t.key()[j]] == values[j]@,
    {
        assert forall|j: int| 0 <= j < old_t.key().len() implies new_t.row_data(old_t.spec_len() as int)[#[trigger] old_t.key()[j]] == values[j]@ by {
            lemma_position_of(old_t.key(), j);
            assert(new_t.column(j) == old_t.column(j).push(values[j]@));
            assert(old_t.column(j).len() == old_t.spec_len());
        }
    }

    /// Each value in a row has the size of its column.
    pub proof fn lemma_value_len(&self, id: ComponentId, r: int)
        requires
            self.wf(),
            self.key().contains(id),
            0 <= r < self.spec_len(),
        ensures
            0 <= position_of(self.key(), id) < self.key().len(),
            self.row_data(r)[id].len() == self.item_size(position_of(self.key(), id)),
    {
        let j = position_of(self.key(), id);
        assert(0 <= j < self.key().len() && self.key()[j] == id);
        let c = self.columns@[j];
        assert(c.wf());
        lemma_row_bounds(r, c.len as int, c.item_size as int);
    }

    /// After one value of row `row` is overwritten, that row holds the new bytes for that
    /// component and the other rows hold what they held.
    pub proof fn lemma_row_data_set(old_t: Table, new_t: Table, id: ComponentId, row: int, bytes: Seq<u8>, r: int)
        requires
            new_t.key() == old_t.key(),
            old_t.key().contains(id),
            forall|j: int| 0 <= j < old_t.key().len() ==> #[trigger] new_t.column(j) == if j == position_of(old_t.key(), id) {
                old_t.column(j).update(row, bytes)
            } else {
                old_t.column(j)
            },
            0 <= row < old_t.spec_len(),
            0 <= r < old_t.spec_len(),
            old_t.wf(),
        ensures
            new_t.row_data(r) == if r == row { old_t.row_data(r).insert(id, bytes) } else { old_t.row_data(r) },
    {
        let expected = if r == row { old_t.row_data(r).insert(id, bytes) } else { old_t.row_data(r) };
        assert forall|c: ComponentId| #[trigger] new_t.row_data(r).contains_key(c) implies new_t.row_data(r)[c] == expected[c] by {
            let j = position_of(old_t.key(), c);
            assert(0 <= j < old_t.key().len() && old_t.key()[j] == c);
            assert(old_t.column(j).len() == old_t.spec_len());
            let pid = position_of(old_t.key(), id);
            assert(0 <= pid < old_t.key().len() && old_t.key()[pid] == id);
            if c != id {
                assert(j != pid);
            }
        }
        assert(new_t.row_data(r) =~= expected);
    }

    /// After a swap-remove of row `row`, that row holds what the last row held and the
    /// other rows hold what they held.
    pub proof fn lemma_row_data_swap(old_t: Table, new_t: Table, row: int, r: int)
        requires
            new_t.key() == old_t.key(),
            forall|j: int| 0 <= j < old_t.key().len() ==> #[trigger] new_t.column(j) == old_t.column(j).update(row, old_t.column(j).last()).drop_last(),
            0 <= row < old_t.spec_len(),
            0 <= r < old_t.spec_len() - 1,
            old_t.wf(),
        ensures
            new_t.row_data(r) == old_t.row_data(if r == row { old_t.spec_len() - 1 } else { r }),
    {
        let src = if r == row { old_t.spec_len() - 1 } else { r };
        assert forall|id: ComponentId| #[trigger] new_t.row_data(r).contains_key(id) implies new_t.row_data(r)[id] == old_t.row_data(src)[id] by {
            let j = position_of(old_t.key(), id);
            assert(0 <= j < old_t.key().len() && old_t.key()[j] == id);
            assert(new_t.column(j) == old_t.column(j).update(row, old_t.column(j).last()).drop_last());
            assert(old_t.column(j).len() == old_t.spec_len());
        }
        assert(new_t.row_data(r) =~= old_t.row_data(src));
    }
}

/// All tables, each with a distinct key.
#[derive(Debug)]
pub struct Tables {
    tables: Vec<Table>,
}

impl Tables {
    pub closed spec fn tables(&self) -> Seq<Table> {
        self.tables@
    }

    pub open spec fn spec_len(&self) -> nat {
        self.tables().len()
    }

    pub open spec fn wf(&self, components: &Components) -> bool {
        &&& forall|t: int|
            0 <= t < self.spec_len() ==> (#[trigger] self.tables()[t]).wf()
                && self.tables()[t].sizes_match(components)
        &&& forall|a: int, b: int|
            0 <= a < self.spec_len() && 0 <= b < self.spec_len() && a != b ==> (#[trigger] self.tables()[a]).key()
                != (#[trigger] self.tables()[b]).key()
    }

    /// The table with the given key, if there is one.
    pub open spec fn find(&self, ids: Seq<ComponentId>) -> Option<TableId> {
        if exists|t: int| 0 <= t < self.spec_len() && (#[trigger] self.tables()[t]).key() == ids {
            Some(TableId((choose|t: int| 0 <= t < self.spec_len() && (#[trigger] self.tables()[t]).key() == ids) as usize))
        } else {
            None
        }
    }

    pub fn new() -> (r: Tables)
        ensures
            r.spec_len() == 0,
    {
        Tables { tables: Vec::new() }
    }

    /// The table of the given canonical ids; a new empty table is made for ids not seen
    /// before.
    pub fn get_id_or_insert(&mut self, ids: &[ComponentId], components: &Components) -> (r: TableId)
        requires
            old(self).wf(components),
            is_canonical(ids@),
            forall|j: int| 0 <= j < ids@.len() ==> components.is_registered(#[trigger] ids@[j]),
        ensures
            final(self).wf(components),
            r.0 < final(self).spec_len(),
            final(self).tables()[r.0 as int].key() == ids@,
            old(self).find(ids@) is Some ==> *final(self) == *old(self) && r == old(self).find(ids@)->Some_0,
            old(self).find(ids@) is None ==> {
                &&& r.0 == old(self).spec_len()
                &&& final(self).tables() == old(self).tables().push(final(self).tables()[r.0 as int])
                &&& final(self).tables()[r.0 as int].entities() == Seq::<Entity>::empty()
            },
    {
        let mut t: usize = 0;
        while t < self.tables.len()
            invariant
                t <= self.tables@.len(),
                self.wf(components),
                is_canonical(ids@),
                forall|j: int| 0 <= j < ids@.len() ==> components.is_registered(#[trigger] ids@[j]),
                forall|k: int| 0 <= k < t ==> (#[trigger] self.tables@[k]).key() != ids@,
            decreases self.tables@.len() - t,
        {
            if same_ids(self.tables[t].key.as_slice(), ids) {
                proof {
                    let c = choose|k: int| 0 <= k < self.spec_len() && (#[trigger] self.tables()[k]).key() == ids@;
                    assert(self.tables()[t as int].key() == ids@);
                    if c != t {
                        assert(self.tables()[c].key() != self.tables()[t as int].key());
                    }
                }
                return TableId(t);
            }
            t = t + 1;
        }
        let table = Table::from_components(ids, components);
        self.tables.push(table);
        assert forall|k: int| 0 <= k < self.spec_len() implies (#[trigger] self.tables()[k]).wf()
            && self.tables()[k].sizes_match(components) by {
            if k < t {
                assert(old(self).tables()[k] == self.tables()[k]);
            }
        }
        assert forall|a: int, b: int|
            0 <= a < self.spec_len() && 0 <= b < self.spec_len() && a != b implies (#[trigger] self.tables()[a]).key()
            != (#[trigger] self.tables()[b]).key() by {
            if a < t && b < t {
                assert(old(self).tables()[a] == self.tables()[a]);
                assert(old(self).tables()[b] == self.tables()[b]);
            } else if a < t {
                assert(old(self).tables()[a] == self.tables()[a]);
            } else {
                assert(old(self).tables()[b] == self.tables()[b]);
            }
        }
        TableId(t)
    }

    pub fn get(&self, id: TableId) -> (r: Option<&Table>)
        ensures
            r is Some <==> id.0 < self.spec_len(),
            r matches Some(t) ==> *t == self.tables()[id.0 as int],
    {
        if id.0 < self.tables.len() {
            Some(&self.tables[id.0])
        } else {
            None
        }
    }

    pub fn len(&self) -> (r: usize)
        ensures
            r == self.spec_len(),
    {
        self.tables.len()
    }

    /// There are at most `usize::MAX` tables.
    pub proof fn lemma_len_bound(&self)
        ensures
            self.spec_len() <= usize::MAX,
    {
        assert(self.tables@.len() == self.tables.len());
    }

    /// The tables stay well formed when the registry only grows.
    pub proof fn lemma_wf_extends(&self, old_components: &Components, components: &Components)
        requires
            self.wf(old_components),
            components.extends(old_components),
        ensures
            self.wf(components),
    {
        assert forall|t: int| 0 <= t < self.spec_len() implies (#[trigger] self.tables()[t]).sizes_match(components) by {
            let tb = self.tables()[t];
            assert forall|j: int| 0 <= j < tb.key().len() implies components.is_registered(#[trigger] tb.key()[j])
                && tb.item_size(j) == components.size_of(tb.key()[j]) by {
                assert(old_components.is_registered(tb.key()[j]));
                assert(components.infos().take(old_components.spec_len() as int)[tb.key()[j].0 as int]
                    == components.infos()[tb.key()[j].0 as int]);
            }
        }
    }

    /// Appends a row to a table; see [`Table::allocate`].
    pub fn allocate(&mut self, id: TableId, entity: Entity, values: &Vec<Vec<u8>>, Ghost(components): Ghost<&Components>) -> (r: TableRow)
        requires
            old(self).wf(components),
            id.0 < old(self).spec_len(),
            values@.len() == old(self).tables()[id.0 as int].key().len(),
            forall|j: int|
                0 <= j < values@.len() ==> (#[trigger] values@[j])@.len() == old(self).tables()[id.0 as int].item_size(j),
        ensures
            final(self).wf(components),
            final(self).spec_len() == old(self).spec_len(),
            forall|t: int| 0 <= t < old(self).spec_len() && t != id.0 ==> #[trigger] final(self).tables()[t] == old(self).tables()[t],
            r.0 == old(self).tables()[id.0 as int].spec_len(),
            final(self).tables()[id.0 as int].key() == old(self).tables()[id.0 as int].key(),
            final(self).tables()[id.0 as int].entities() == old(self).tables()[id.0 as int].entities().push(entity),
            forall|j: int| 0 <= j < old(self).tables()[id.0 as int].key().len() ==> #[trigger] final(self).tables()[id.0 as int].column(j)
                == old(self).tables()[id.0 as int].column(j).push(values@[j]@),
    {
        let ghost pre = *self;
        let r = self.tables[id.0].allocate(entity, values);
        proof {
            assert forall|t: int| 0 <= t < self.spec_len() implies (#[trigger] self.tables()[t]).wf()
                && self.tables()[t].sizes_match(components) by {
                assert(pre.tables()[t].sizes_match(components));
                if t == id.0 {
                    let tb = self.tables()[t];
                    assert forall|j: int| 0 <= j < tb.key().len() implies components.is_registered(#[trigger] tb.key()[j])
                        && tb.item_size(j) == components.size_of(tb.key()[j]) by {
                        assert(pre.tables()[t].key()[j] == tb.key()[j]);
                        assert(tb.column(j) == self.tables()[t].column(j));
                        assert(pre.tables()[t].sizes_match(components));
                        assert(components.is_registered(pre.tables()[t].key()[j]));
                    }
                }
            }
            assert forall|a: int, b: int|
                0 <= a < self.spec_len() && 0 <= b < self.spec_len() && a != b implies (#[trigger] self.tables()[a]).key()
                != (#[trigger] self.tables()[b]).key() by {
                assert(pre.tables()[a].key() != pre.tables()[b].key());
            }
        }
        r
    }

    /// Removes a row of a table; see [`Table::swap_remove`].
    pub fn swap_remove(&mut self, id: TableId, row: TableRow, Ghost(components): Ghost<&Components>) -> (r: Option<Entity>)
        requires
            old(self).wf(components),
            id.0 < old(self).spec_len(),
            row.0 < old(self).tables()[id.0 as int].spec_len(),
        ensures
            final(self).wf(components),
            final(self).spec_len() == old(self).spec_len(),
            forall|t: int| 0 <= t < old(self).spec_len() && t != id.0 ==> #[trigger] final(self).tables()[t] == old(self).tables()[t],
            final(self).tables()[id.0 as int].key() == old(self).tables()[id.0 as int].key(),
            final(self).tables()[id.0 as int].entities() == old(self).tables()[id.0 as int].entities().update(
                row.0 as int,
                old(self).tables()[id.0 as int].entities().last(),
            ).drop_last(),
            r == if row.0 + 1 < old(self).tables()[id.0 as int].spec_len() {
                Some(old(self).tables()[id.0 as int].entities().last())
            } else {
                None::<Entity>
            },
            forall|j: int| 0 <= j < old(self).tables()[id.0 as int].key().len() ==> #[trigger] final(self).tables()[id.0 as int].column(j)
                == old(self).tables()[id.0 as int].column(j).update(row.0 as int, old(self).tables()[id.0 as int].column(j).last()).drop_last(),
    {
        let ghost pre = *self;
        let r = self.tables[id.0].swap_remove(row);
        proof {
            assert forall|t: int| 0 <= t < self.spec_len() implies (#[trigger] self.tables()[t]).wf()
                && self.tables()[t].sizes_match(components) by {
                assert(pre.tables()[t].sizes_match(components));
                if t == id.0 {
                    let tb = self.tables()[t];
                    assert forall|j: int| 0 <= j < tb.key().len() implies components.is_registered(#[trigger] tb.key()[j])
                        && tb.item_size(j) == components.size_of(tb.key()[j]) by {
                        assert(pre.tables()[t].key()[j] == tb.key()[j]);
                        assert(tb.column(j) == self.tables()[t].column(j));
                        assert(pre.tables()[t].sizes_match(components));
                        assert(components.is_registered(pre.tables()[t].key()[j]));
                    }
                }
            }
            assert forall|a: int, b: int|
                0 <= a < self.spec_len() && 0 <= b < self.spec_len() && a != b implies (#[trigger] self.tables()[a]).key()
                != (#[trigger] self.tables()[b]).key() by {
                assert(pre.tables()[a].key() != pre.tables()[b].key());
            }
        }
        r
    }

    /// Overwrites a value in a table; see [`Table::set_component`].
    pub fn set_component(&mut self, id: TableId, cid: ComponentId, row: TableRow, bytes: &[u8], Ghost(components): Ghost<&Components>) -> (r: bool)
        requires
            old(self).wf(components),
            id.0 < old(self).spec_len(),
            old(self).tables()[id.0 as int].key().contains(cid) ==> bytes@.len() == components.size_of(cid),
        ensures
            final(self).wf(components),
            final(self).spec_len() == old(self).spec_len(),
            forall|t: int| 0 <= t < old(self).spec_len() && t != id.0 ==> #[trigger] final(self).tables()[t] == old(self).tables()[t],
            r == (old(self).tables()[id.0 as int].key().contains(cid) && row.0 < old(self).tables()[id.0 as int].spec_len()),
            final(self).tables()[id.0 as int].key() == old(self).tables()[id.0 as int].key(),
            final(self).tables()[id.0 as int].entities() == old(self).tables()[id.0 as int].entities(),
            forall|j: int|
                0 <= j < old(self).tables()[id.0 as int].key().len() ==> #[trigger] final(self).tables()[id.0 as int].column(j) == if r && j
                    == position_of(old(self).tables()[id.0 as int].key(), cid) {
                    old(self).tables()[id.0 as int].column(j).update(row.0 as int, bytes@)
                } else {
                    old(self).tables()[id.0 as int].column(j)
                },
    {
        let ghost pre = *self;
        proof {
            let tb = pre.tables()[id.0 as int];
            if tb.key().contains(cid) {
                let j = choose|j: int| 0 <= j < tb.key().len() && tb.key()[j] == cid;
                lemma_position_of(tb.key(), j);
                assert(tb.sizes_match(components));
            }
        }
        let r = self.tables[id.0].set_component(cid, row, bytes);
        proof {
            assert forall|t: int| 0 <= t < self.spec_len() implies (#[trigger] self.tables()[t]).wf()
                && self.tables()[t].sizes_match(components) by {
                assert(pre.tables()[t].sizes_match(components));
                if t == id.0 {
                    let tb = self.tables()[t];
                    assert forall|j: int| 0 <= j < tb.key().len() implies components.is_registered(#[trigger] tb.key()[j])
                        && tb.item_size(j) == components.size_of(tb.key()[j]) by {
                        assert(pre.tables()[t].key()[j] == tb.key()[j]);
                        assert(tb.column(j) == self.tables()[t].column(j));
                        assert(pre.tables()[t].sizes_match(components));
                        assert(components.is_registered(pre.tables()[t].key()[j]));
                    }
                }
            }
            assert forall|a: int, b: int|
                0 <= a < self.spec_len() && 0 <= b < self.spec_len() && a != b implies (#[trigger] self.tables()[a]).key()
                != (#[trigger] self.tables()[b]).key() by {
                assert(pre.tables()[a].key() != pre.tables()[b].key());
            }
        }
        r
    }
}

} // verus!
