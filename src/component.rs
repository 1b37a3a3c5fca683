use vstd::prelude::*;

use std::any::TypeId;


verus! {

broadcast use vstd::layout::layout_of_primitives;

#[verifier::external_type_specification]
#[verifier::external_body]
pub struct ExTypeId(TypeId);

/// Relies on `std::any::TypeId::of`: an identifier of the type `T`.
#[verifier::external_body]
fn type_id_of<T: 'static>() -> (r: TypeId) {
    TypeId::of::<T>()
}

/// Relies on `TypeId`'s `==`, which tells two identifiers apart.
#[verifier::external_body]
fn same_type(a: &TypeId, b: &TypeId) -> (r: bool)
    ensures
        r == (*a == *b),
{
    *a == *b
}

/// A plain-data value that can be stored in a column: it is written there as the bytes of
/// its memory layout and read back from them.
pub trait Component: Sized + 'static {
    /// The value that the given bytes hold. Types of this library give it; for a type that
    /// does not, nothing is known of it.
    closed spec fn read_spec(bytes: Seq<u8>) -> Self {
        vstd::pervasive::arbitrary()
    }

    /// The bytes that `to_bytes` gives for the value.
    closed spec fn bytes_spec(&self) -> Seq<u8> {
        vstd::pervasive::arbitrary()
    }

    /// The bytes of the value, as many as its type's size.
    fn to_bytes(&self) -> (r: Vec<u8>)
        ensures
            r@ == self.bytes_spec(),
            r@.len() == vstd::layout::size_of::<Self>(),
            Self::read_spec(r@) == *self,
    ;

    /// Reads a value back from its bytes.
    fn from_bytes(bytes: &[u8]) -> (r: Self)
        requires
            bytes@.len() == vstd::layout::size_of::<Self>(),
        ensures
            r == Self::read_spec(bytes@),
    ;
}

impl Component for u8 {
    open spec fn read_spec(bytes: Seq<u8>) -> u8 {
        bytes[0]
    }

    open spec fn bytes_spec(&self) -> Seq<u8> {
        seq![*self]
    }

    fn to_bytes(&self) -> (r: Vec<u8>) {
        vec![*self]
    }

    fn from_bytes(bytes: &[u8]) -> (r: u8) {
        bytes[0]
    }
}

/// What `FromBytes::read_from_bytes` reads as a `u32` from four bytes.
pub uninterp spec fn u32_from_bytes(bytes: Seq<u8>) -> u32;

/// The bytes that `IntoBytes::as_bytes` gives for a `u32`.
pub uninterp spec fn u32_bytes(v: u32) -> Seq<u8>;

/// Relies on zerocopy's `IntoBytes::as_bytes`: the four bytes of a `u32` in memory, which
/// `FromBytes::read_from_bytes` reads back as the same value.
#[verifier::external_body]
fn u32_as_bytes(v: &u32) -> (r: Vec<u8>)
    ensures
        r@ == u32_bytes(*v),
        r@.len() == 4,
        u32_from_bytes(r@) == *v,
{
    zerocopy::IntoBytes::as_bytes(v).to_vec()
}

/// Relies on zerocopy's `FromBytes::read_from_bytes`, which reads a `u32` from exactly four
/// bytes and fails on any other length.
#[verifier::external_body]
fn u32_read_from_bytes(bytes: &[u8]) -> (r: u32)
    requires
        bytes@.len() == 4,
    ensures
        r == u32_from_bytes(bytes@),
{
    <u32 as zerocopy::FromBytes>::read_from_bytes(bytes).unwrap()
}

impl Component for u32 {
    open spec fn read_spec(bytes: Seq<u8>) -> u32 {
        u32_from_bytes(bytes)
    }

    open spec fn bytes_spec(&self) -> Seq<u8> {
        u32_bytes(*self)
    }

    fn to_bytes(&self) -> (r: Vec<u8>) {
        u32_as_bytes(self)
    }

    fn from_bytes(bytes: &[u8]) -> (r: u32) {
        u32_read_from_bytes(bytes)
    }
}

/// Dense identifier of a registered component type, in registration order.
#[derive(Debug, Clone, Copy, PartialEq, Eq, PartialOrd, Ord, Hash, Structural)]
pub struct ComponentId(pub usize);

impl ComponentId {
    pub fn new(id: usize) -> (r: ComponentId)
        ensures
            r.0 == id,
    {
        ComponentId(id)
    }

    pub fn index(&self) -> (r: usize)
        ensures
            r == self.0,
    {
        self.0
    }
}

/// What the registry records of a component type: its id, the identifier of the Rust type,
/// and the size and alignment of its values.
#[derive(Debug)]
pub struct ComponentInfo {
    id: ComponentId,
    type_id: TypeId,
    size: usize,
    align: usize,
}

impl ComponentInfo {
    pub closed spec fn spec_id(&self) -> ComponentId {
        self.id
    }

    pub closed spec fn spec_type_id(&self) -> TypeId {
        self.type_id
    }

    pub closed spec fn spec_size(&self) -> usize {
        self.size
    }

    pub closed spec fn spec_align(&self) -> usize {
        self.align
    }

    pub fn id(&self) -> (r: ComponentId)
        ensures
            r == self.spec_id(),
    {
        self.id
    }

    pub fn type_id(&self) -> (r: TypeId)
        ensures
            r == self.spec_type_id(),
    {
        self.type_id
    }

    pub fn size(&self) -> (r: usize)
        ensures
            r == self.spec_size(),
    {
        self.size
    }

    pub fn align(&self) -> (r: usize)
        ensures
            r == self.spec_align(),
    {
        self.align
    }
}

/// The registry of component types: one entry per type, in registration order.
#[derive(Debug)]
pub struct Components {
    components: Vec<ComponentInfo>,
}

impl Components {
    pub closed spec fn infos(&self) -> Seq<ComponentInfo> {
        self.components@
    }

    pub open spec fn spec_len(&self) -> nat {
        self.infos().len()
    }

    /// Each entry holds its own index as id, and no type is registered twice with one size.
    pub open spec fn wf(&self) -> bool {
        &&& forall|i: int| 0 <= i < self.spec_len() ==> (#[trigger] self.infos()[i]).spec_id().0 == i
        &&& forall|i: int, j: int|
            0 <= i < self.spec_len() && 0 <= j < self.spec_len() && i != j
                ==> !(#[trigger] self.infos()[i].spec_type_id() == #[trigger] self.infos()[j].spec_type_id()
                && self.infos()[i].spec_size() == self.infos()[j].spec_size())
    }

    pub open spec fn has_type(&self, t: TypeId) -> bool {
        exists|i: int| 0 <= i < self.spec_len() && #[trigger] self.infos()[i].spec_type_id() == t
    }

    /// An entry records the type with this identifier and this size.
    pub open spec fn has_key(&self, t: TypeId, size: usize) -> bool {
        exists|i: int|
            0 <= i < self.spec_len() && #[trigger] self.infos()[i].spec_type_id() == t && self.infos()[i].spec_size()
                == size
    }

    /// The id registered for the type with this identifier and size, if there is one.
    pub open spec fn lookup_key(&self, t: TypeId, size: usize) -> Option<ComponentId> {
        if self.has_key(t, size) {
            Some(
                ComponentId(
                    (choose|i: int|
                        0 <= i < self.spec_len() && #[trigger] self.infos()[i].spec_type_id() == t
                            && self.infos()[i].spec_size() == size) as usize,
                ),
            )
        } else {
            None
        }
    }

    pub open spec fn is_registered(&self, id: ComponentId) -> bool {
        id.0 < self.spec_len()
    }

    /// The size of the values of a registered component.
    pub open spec fn size_of(&self, id: ComponentId) -> usize {
        self.infos()[id.0 as int].spec_size()
    }

    /// `self` holds the entries of `old` and perhaps more after them.
    pub open spec fn extends(&self, old: &Components) -> bool {
        &&& old.spec_len() <= self.spec_len()
        &&& self.infos().take(old.spec_len() as int) == old.infos()
    }

    pub fn new() -> (r: Components)
        ensures
            r.wf(),
            r.spec_len() == 0,
    {
        Components { components: Vec::new() }
    }

    /// The first id registered for the type with the given identifier, if there is one.
    pub fn get_id(&self, type_id: TypeId) -> (r: Option<ComponentId>)
        requires
            self.wf(),
        ensures
            r is Some <==> self.has_type(type_id),
            r matches Some(id) ==> id.0 < self.spec_len() && self.infos()[id.0 as int].spec_type_id()
                == type_id,
            r matches Some(id) ==> forall|j: int| 0 <= j < id.0 ==> self.infos()[j].spec_type_id() != type_id,
    {
        let mut i: usize = 0;
        while i < self.components.len()
            invariant
                i <= self.components@.len(),
                forall|j: int| 0 <= j < i ==> self.infos()[j].spec_type_id() != type_id,
            decreases self.components@.len() - i,
        {
            if same_type(&self.components[i].type_id, &type_id) {
                assert(self.infos()[i as int].spec_type_id() == type_id);
                return Some(ComponentId(i));
            }
            i = i + 1;
        }
        None
    }

    /// The id registered for the type with the given identifier and size, if there is one.
    fn find_key(&self, type_id: TypeId, size: usize) -> (r: Option<ComponentId>)
        requires
            self.wf(),
        ensures
            r == self.lookup_key(type_id, size),
            r is Some <==> self.has_key(type_id, size),
            r matches Some(id) ==> id.0 < self.spec_len() && self.infos()[id.0 as int].spec_type_id()
                == type_id && self.infos()[id.0 as int].spec_size() == size,
    {
        let mut i: usize = 0;
        while i < self.components.len()
            invariant
                i <= self.components@.len(),
                self.wf(),
                forall|j: int|
                    0 <= j < i ==> !(self.infos()[j].spec_type_id() == type_id && self.infos()[j].spec_size()
                        == size),
            decreases self.components@.len() - i,
        {
            if self.components[i].size == size && same_type(&self.components[i].type_id, &type_id) {
                assert(self.infos()[i as int].spec_type_id() == type_id);
                proof {
                    let c = choose|j: int|
                        0 <= j < self.spec_len() && #[trigger] self.infos()[j].spec_type_id() == type_id
                            && self.infos()[j].spec_size() == size;
                    if c != i {
                        assert(!(self.infos()[c].spec_type_id() == self.infos()[i as int].spec_type_id()
                            && self.infos()[c].spec_size() == self.infos()[i as int].spec_size()));
                    }
                }
                return Some(ComponentId(i));
            }
            i = i + 1;
        }
        None
    }

    /// Registers a type by its identifier and size, unless it is registered already with
    /// that size, and returns its id.
    fn register_info(&mut self, type_id: TypeId, size: usize, align: usize) -> (r: ComponentId)
        requires
            old(self).wf(),
        ensures
            final(self).wf(),
            r.0 < final(self).spec_len(),
            final(self).infos()[r.0 as int].spec_type_id() == type_id,
            final(self).infos()[r.0 as int].spec_size() == size,
            old(self).has_key(type_id, size) ==> *final(self) == *old(self),
            !old(self).has_key(type_id, size) ==> {
                &&& r.0 == old(self).spec_len()
                &&& final(self).infos().drop_last() == old(self).infos()
                &&& final(self).spec_len() == old(self).spec_len() + 1
                &&& final(self).infos()[r.0 as int].spec_align() == align
            },
    {
        match self.find_key(type_id, size) {
            Some(id) => id,
            None => {
                let id = ComponentId(self.components.len());
                let ghost old_infos = self.infos();
                self.components.push(ComponentInfo { id, type_id, size, align });
                assert(self.infos().drop_last() =~= old_infos);
                id
            },
        }
    }

    /// Registers `T`, unless it is registered already, and returns its id, whose recorded
    /// size is that of `T`. A new type gets the next id and the alignment of `T`.
    pub fn register_component<T: Component>(&mut self) -> (r: ComponentId)
        requires
            old(self).wf(),
        ensures
            final(self).wf(),
            r.0 < final(self).spec_len(),
            final(self).infos()[r.0 as int].spec_size() == vstd::layout::size_of::<T>(),
            ({
                let key = final(self).infos()[r.0 as int].spec_type_id();
                &&& old(self).has_key(key, vstd::layout::size_of::<T>() as usize) ==> *final(self) == *old(self)
                &&& !old(self).has_key(key, vstd::layout::size_of::<T>() as usize) ==> {
                    &&& r.0 == old(self).spec_len()
                    &&& final(self).infos().drop_last() == old(self).infos()
                    &&& final(self).spec_len() == old(self).spec_len() + 1
                    &&& final(self).infos()[r.0 as int].spec_align()
                        == vstd::layout::align_of::<T>()
                }
            }),
    {
        let type_id = type_id_of::<T>();
        let size = core::mem::size_of::<T>();
        let align = core::mem::align_of::<T>();
        self.register_info(type_id, size, align)
    }

    pub fn get_info(&self, id: &ComponentId) -> (r: Option<&ComponentInfo>)
        ensures
            r is Some <==> id.0 < self.spec_len(),
            r matches Some(info) ==> *info == self.infos()[id.0 as int],
    {
        if id.0 < self.components.len() {
            Some(&self.components[id.0])
        } else {
            None
        }
    }

    /// The id of `T`, if it is registered; its recorded size is that of `T`.
    pub fn component_id<T: Component>(&self) -> (r: Option<ComponentId>)
        requires
            self.wf(),
        ensures
            r matches Some(id) ==> id.0 < self.spec_len() && self.size_of(id) == vstd::layout::size_of::<T>(),
            exists|key: TypeId| r == #[trigger] self.lookup_key(key, vstd::layout::size_of::<T>() as usize),
            exists|key: TypeId|
                {
                    &&& (r is Some <==> #[trigger] self.has_key(key, vstd::layout::size_of::<T>() as usize))
                    &&& r matches Some(id) ==> self.infos()[id.0 as int].spec_type_id() == key
                },
    {
        let key = type_id_of::<T>();
        let r = self.find_key(key, core::mem::size_of::<T>());
        assert(r is Some <==> self.has_key(key, vstd::layout::size_of::<T>() as usize));
        assert(r == self.lookup_key(key, vstd::layout::size_of::<T>() as usize));
        r
    }

    /// The ids of all registered types, in registration order.
    pub fn components(&self) -> (r: Vec<ComponentId>)
        ensures
            r@.len() == self.spec_len(),
            forall|i: int| 0 <= i < r@.len() ==> (#[trigger] r@[i]).0 == i,
    {
        let mut r: Vec<ComponentId> = Vec::new();
        let mut i: usize = 0;
        while i < self.components.len()
            invariant
                i <= self.components@.len(),
                r@.len() == i,
                forall|j: int| 0 <= j < i ==> (#[trigger] r@[j]).0 == j,
            decreases self.components@.len() - i,
        {
            r.push(ComponentId(i));
            i = i + 1;
        }
        r
    }

    pub fn len(&self) -> (r: usize)
        ensures
            r == self.spec_len(),
    {
        self.components.len()
    }
}

/// What a sequence of (id, bytes) parts stores: each id with its bytes, a later part
/// taking the place of an earlier one with the same id.
pub open spec fn bundle_map(values: Seq<(ComponentId, Vec<u8>)>) -> Map<ComponentId, Seq<u8>>
    decreases values.len(),
{
    if values.len() == 0 {
        Map::empty()
    } else {
        bundle_map(values.drop_last()).insert(values.last().0, values.last().1@)
    }
}

fn copy_bytes(b: &Vec<u8>) -> (r: Vec<u8>)
    ensures
        r@ == b@,
{
    let mut r: Vec<u8> = Vec::new();
    let mut i: usize = 0;
    while i < b.len()
        invariant
            i <= b@.len(),
            r@ == b@.take(i as int),
        decreases b@.len() - i,
    {
        r.push(b[i]);
        i = i + 1;
        assert(r@ =~= b@.take(i as int));
    }
    assert(r@ =~= b@);
    r
}

/// The parts in canonical form: the distinct ids in increasing order, each with the bytes
/// that `bundle_map` gives it.
pub fn canonical_parts(values: &Vec<(ComponentId, Vec<u8>)>) -> (r: (Vec<ComponentId>, Vec<Vec<u8>>))
    ensures
        crate::storage::is_canonical(r.0@),
        r.1@.len() == r.0@.len(),
        forall|id: ComponentId| r.0@.contains(id) <==> bundle_map(values@).contains_key(id),
        forall|j: int| 0 <= j < r.0@.len() ==> (#[trigger] r.1@[j])@ == bundle_map(values@)[r.0@[j]],
{
    let mut ids: Vec<ComponentId> = Vec::new();
    let mut vals: Vec<Vec<u8>> = Vec::new();
    let mut i: usize = 0;
    while i < values.len()
        invariant
            i <= values@.len(),
            crate::storage::is_canonical(ids@),
            vals@.len() == ids@.len(),
            forall|id: ComponentId| ids@.contains(id) <==> bundle_map(values@.take(i as int)).contains_key(id),
            forall|j: int| 0 <= j < ids@.len() ==> (#[trigger] vals@[j])@ == bundle_map(values@.take(i as int))[ids@[j]],
        decreases values@.len() - i,
    {
        let id = values[i].0;
        let bytes = copy_bytes(&values[i].1);
        let ghost m = bundle_map(values@.take(i as int));
        proof {
            assert(values@.take(i + 1).drop_last() =~= values@.take(i as int));
            assert(bundle_map(values@.take(i + 1)) == m.insert(id, bytes@));
        }
        let mut p: usize = 0;
        while p < ids.len() && ids[p].0 < id.0
            invariant
                p <= ids@.len(),
                forall|k: int| 0 <= k < p ==> (#[trigger] ids@[k]).0 < id.0,
            decreases ids@.len() - p,
        {
            p = p + 1;
        }
        let ghost old_ids = ids@;
        let ghost old_vals = vals@;
        if p < ids.len() && ids[p].0 == id.0 {
            vals.set(p, bytes);
            proof {
                assert(ids@[p as int] == id);
                assert forall|j: int| 0 <= j < ids@.len() implies (#[trigger] vals@[j])@ == m.insert(id, bytes@)[ids@[j]] by {
                    if j != p {
                        if j < p {
                            assert(ids@[j].0 < ids@[p as int].0);
                        } else {
                            assert(ids@[p as int].0 < ids@[j].0);
                        }
                    }
                }
                assert forall|x: ComponentId| ids@.contains(x) <==> m.insert(id, bytes@).contains_key(x) by {
                    if x == id {
                        assert(ids@[p as int] == x);
                    }
                }
            }
        } else {
            ids.insert(p, id);
            vals.insert(p, bytes);
            proof {
                old_ids.insert_ensures(p as int, id);
                old_vals.insert_ensures(p as int, bytes);
                assert forall|k: int| p <= k < old_ids.len() implies id.0 < (#[trigger] old_ids[k]).0 by {
                    if k > p {
                        assert(old_ids[p as int].0 < old_ids[k].0);
                    }
                }
                assert forall|a: int, b: int| 0 <= a < b < ids@.len() implies (#[trigger] ids@[a]).0 < (#[trigger] ids@[b]).0 by {
                    if b < p {
                    } else if b == p {
                    } else if a < p {
                        assert(ids@[b] == old_ids[b - 1]);
                    } else if a == p {
                        assert(ids@[b] == old_ids[b - 1]);
                    } else {
                        assert(ids@[a] == old_ids[a - 1]);
                        assert(ids@[b] == old_ids[b - 1]);
                    }
                }
                assert forall|x: ComponentId| ids@.contains(x) <==> m.insert(id, bytes@).contains_key(x) by {
                    assert(old_ids.contains(x) <==> m.contains_key(x));
                    if x == id {
                        assert(ids@[p as int] == x);
                    } else if ids@.contains(x) {
                        let k = choose|k: int| 0 <= k < ids@.len() && ids@[k] == x;
                        if k < p {
                            assert(old_ids[k] == x);
                        } else {
                            assert(old_ids[k - 1] == x);
                        }
                    } else if old_ids.contains(x) {
                        let k = choose|k: int| 0 <= k < old_ids.len() && old_ids[k] == x;
                        if k < p {
                            assert(ids@[k] == x);
                        } else {
                            assert(ids@[k + 1] == x);
                        }
                    }
                }
                assert forall|j: int| 0 <= j < ids@.len() implies (#[trigger] vals@[j])@ == m.insert(id, bytes@)[ids@[j]] by {
                    if j < p {
                        assert(ids@[j] == old_ids[j]);
                        assert(vals@[j] == old_vals[j]);
                        assert(ids@[j] != id);
                    } else if j > p {
                        assert(ids@[j] == old_ids[j - 1]);
                        assert(vals@[j] == old_vals[j - 1]);
                        assert(ids@[j] != id);
                    }
                }
            }
        }
        i = i + 1;
    }
    assert(values@.take(i as int) =~= values@);
    (ids, vals)
}

/// A set of component values given to `spawn`: one value, or a pair.
pub trait Bundle: Sized {
    /// The parts hold the bundle's values: one part per value, in order, whose bytes read
    /// back as that value.
    spec fn holds(self, parts: Seq<(ComponentId, Vec<u8>)>) -> bool;

    /// Registers the bundle's component types, then hands out each value as its id and
    /// bytes, each as many bytes as the registry records for the id.
    fn into_parts(self, components: &mut Components) -> (r: Vec<(ComponentId, Vec<u8>)>)
        requires
            old(components).wf(),
        ensures
            final(components).wf(),
            final(components).extends(old(components)),
            forall|k: int|
                0 <= k < r@.len() ==> final(components).is_registered((#[trigger] r@[k]).0)
                    && r@[k].1@.len() == final(components).size_of(r@[k].0),
            Self::holds(self, r@),
    ;
}

impl Components {
    /// Registers `T` and gives the id and bytes of `value`.
    fn part_of<T: Component>(&mut self, value: &T) -> (r: Vec<(ComponentId, Vec<u8>)>)
        requires
            old(self).wf(),
        ensures
            final(self).wf(),
            final(self).extends(old(self)),
            r@.len() == 1,
            forall|k: int|
                0 <= k < r@.len() ==> final(self).is_registered((#[trigger] r@[k]).0)
                    && r@[k].1@.len() == final(self).size_of(r@[k].0)
                    && r@[k].1@.len() == vstd::layout::size_of::<T>()
                    && T::read_spec(r@[k].1@) == *value,
    {
        let id = self.register_component::<T>();
        proof {
            assert(self.infos().take(old(self).spec_len() as int) =~= old(self).infos()) by {
                if self.spec_len() > old(self).spec_len() {
                    assert(self.infos().drop_last() == old(self).infos());
                }
            }
        }
        let bytes = value.to_bytes();
        let mut r: Vec<(ComponentId, Vec<u8>)> = Vec::new();
        r.push((id, bytes));
        r
    }
}

impl<C: Component> Bundle for C {
    open spec fn holds(self, parts: Seq<(ComponentId, Vec<u8>)>) -> bool {
        &&& parts.len() == 1
        &&& parts[0].1@.len() == vstd::layout::size_of::<C>()
        &&& C::read_spec(parts[0].1@) == self
    }

    fn into_parts(self, components: &mut Components) -> (r: Vec<(ComponentId, Vec<u8>)>) {
        let r = components.part_of(&self);
        assert(r@[0].1@.len() == vstd::layout::size_of::<C>());
        r
    }
}

impl<C0: Component, C1: Component> Bundle for (C0, C1) {
    open spec fn holds(self, parts: Seq<(ComponentId, Vec<u8>)>) -> bool {
        &&& parts.len() == 2
        &&& parts[0].1@.len() == vstd::layout::size_of::<C0>()
        &&& C0::read_spec(parts[0].1@) == self.0
        &&& parts[1].1@.len() == vstd::layout::size_of::<C1>()
        &&& C1::read_spec(parts[1].1@) == self.1
    }

    fn into_parts(self, components: &mut Components) -> (r: Vec<(ComponentId, Vec<u8>)>) {
        let ghost start = *components;
        let mut r = components.part_of(&self.0);
        let ghost mid = *components;
        let mut second = components.part_of(&self.1);
        proof {
            assert forall|k: int| 0 <= k < r@.len() implies components.is_registered((#[trigger] r@[k]).0)
                && r@[k].1@.len() == components.size_of(r@[k].0) by {
                assert(components.infos().take(mid.spec_len() as int)[r@[k].0.0 as int] == components.infos()[r@[k].0.0 as int]);
            }
            assert(components.infos().take(start.spec_len() as int) =~= start.infos()) by {
                assert(components.infos().take(mid.spec_len() as int).take(start.spec_len() as int) =~= components.infos().take(start.spec_len() as int));
            }
        }
        let ghost first = r@;
        let ghost sec = second@;
        assert(first[0].1@.len() == vstd::layout::size_of::<C0>());
        assert(sec[0].1@.len() == vstd::layout::size_of::<C1>());
        r.append(&mut second);
        proof {
            assert forall|k: int| 0 <= k < r@.len() implies components.is_registered((#[trigger] r@[k]).0)
                && r@[k].1@.len() == components.size_of(r@[k].0) by {
                if k < first.len() {
                    assert(r@[k] == first[k]);
                }
            }
            assert(r@[0] == first[0]);
            assert(r@[1] == sec[0]);
        }
        r
    }
}

} // verus!
