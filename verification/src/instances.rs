//! A map from ids to values whose values live in a slot vector; freed slots are
//! reused through a free list.

use vstd::prelude::*;

use ahash::{AHashMap, RandomState};
use core::marker::PhantomData;
use vstd::std_specs::cmp::PartialEqSpec;

verus! {

#[verifier::external_type_specification]
#[verifier::external_body]
#[verifier::reject_recursive_types(K)]
#[verifier::reject_recursive_types(V)]
#[verifier::reject_recursive_types(S)]
pub struct ExAHashMap<K, V, S>(AHashMap<K, V, S>);

#[verifier::external_type_specification]
#[verifier::external_body]
pub struct ExRandomState(RandomState);

/// The entries of a slot map: each id with the slot that holds its value.
pub uninterp spec fn slot_map(m: AHashMap<u64, usize>) -> Map<u64, usize>;

/// No entries.
pub open spec fn no_slots() -> Map<u64, usize> {
    Map::empty()
}

/// An empty map, through `AHashMap::new`.
#[verifier::external_body]
fn map_new() -> (r: AHashMap<u64, usize>)
    ensures
        slot_map(r) == no_slots(),
        slot_map(r).dom().finite(),
{
    AHashMap::new()
}

/// An empty map with room for `capacity` entries, through `AHashMap::with_capacity`.
#[verifier::external_body]
fn map_with_capacity(capacity: usize) -> (r: AHashMap<u64, usize>)
    ensures
        slot_map(r) == no_slots(),
        slot_map(r).dom().finite(),
{
    AHashMap::with_capacity(capacity)
}

/// The number of entries, through `HashMap::len`.
#[verifier::external_body]
fn map_len(m: &AHashMap<u64, usize>) -> (r: usize)
    ensures
        r == slot_map(*m).len(),
{
    m.len()
}

/// Whether `k` has an entry, through `HashMap::contains_key`.
#[verifier::external_body]
fn map_contains(m: &AHashMap<u64, usize>, k: u64) -> (r: bool)
    ensures
        r == slot_map(*m).contains_key(k),
{
    m.contains_key(&k)
}

/// The slot of `k`, through `AHashMap::get`.
#[verifier::external_body]
fn map_get(m: &AHashMap<u64, usize>, k: u64) -> (r: Option<usize>)
    ensures
        r == (if slot_map(*m).contains_key(k) {
            Some(slot_map(*m)[k])
        } else {
            None::<usize>
        }),
{
    m.get(&k).copied()
}

/// Sets the slot of `k`, through `AHashMap::insert`; gives the slot it had.
#[verifier::external_body]
fn map_insert(m: &mut AHashMap<u64, usize>, k: u64, v: usize) -> (r: Option<usize>)
    ensures
        slot_map(*final(m)) == slot_map(*old(m)).insert(k, v),
        r == (if slot_map(*old(m)).contains_key(k) {
            Some(slot_map(*old(m))[k])
        } else {
            None::<usize>
        }),
{
    m.insert(k, v)
}

/// Removes the entry of `k`, through `AHashMap::remove`; gives the slot it had.
#[verifier::external_body]
fn map_remove(m: &mut AHashMap<u64, usize>, k: u64) -> (r: Option<usize>)
    ensures
        slot_map(*final(m)) == slot_map(*old(m)).remove(k),
        r == (if slot_map(*old(m)).contains_key(k) {
            Some(slot_map(*old(m))[k])
        } else {
            None::<usize>
        }),
{
    m.remove(&k)
}

/// Removes every entry, through `HashMap::clear`.
#[verifier::external_body]
fn map_clear(m: &mut AHashMap<u64, usize>)
    ensures
        slot_map(*final(m)) == no_slots(),
{
    m.clear()
}

/// Makes room for `additional` more entries, through `HashMap::reserve`.
#[verifier::external_body]
fn map_reserve(m: &mut AHashMap<u64, usize>, additional: usize)
    ensures
        slot_map(*final(m)) == slot_map(*old(m)),
{
    m.reserve(additional)
}

/// Gives back unused room, through `HashMap::shrink_to_fit`.
#[verifier::external_body]
fn map_shrink_to_fit(m: &mut AHashMap<u64, usize>)
    ensures
        slot_map(*final(m)) == slot_map(*old(m)),
{
    m.shrink_to_fit()
}

/// The ids that have entries, each once, in the map's own order, through
/// `HashMap::keys`. The order depends on the hasher's random seeds and is not stated.
#[verifier::external_body]
fn map_keys(m: &AHashMap<u64, usize>) -> (r: Vec<u64>)
    ensures
        r@.to_set() == slot_map(*m).dom(),
        r@.no_duplicates(),
{
    m.keys().copied().collect()
}

/// A copy of the map with the same entries, through `AHashMap::clone`.
#[verifier::external_body]
fn map_clone(m: &AHashMap<u64, usize>) -> (r: AHashMap<u64, usize>)
    ensures
        slot_map(r) == slot_map(*m),
{
    m.clone()
}

/// The number of elements a vector can hold without reallocating, through
/// `Vec::capacity`; the allocator decides it, so only that it covers the length is stated.
#[verifier::external_body]
fn vec_capacity<X>(v: &Vec<X>) -> (r: usize)
    ensures
        r >= v@.len(),
{
    v.capacity()
}

/// Where an instance's value lives.
#[derive(Debug)]
pub struct Instance<T> {
    pub instance_data_index: Option<usize>,
    pub _marker: PhantomData<T>,
}

impl<T> Clone for Instance<T> {
    fn clone(&self) -> (r: Self)
        ensures
            r.instance_data_index == self.instance_data_index,
    {
        Instance { instance_data_index: self.instance_data_index, _marker: PhantomData }
    }
}

/// A slot of the value vector: a value, or a link in the list of free slots.
#[derive(Debug)]
pub struct InstanceData<T> {
    pub data: Option<T>,
    pub next: Option<usize>,
}

impl<T: Clone> Clone for InstanceData<T> {
    /// A copy of the slot; the value is cloned with `T`'s own `clone`.
    fn clone(&self) -> (r: Self)
        ensures
            r.next == self.next,
            r.data is Some <==> self.data is Some,
            self.data is Some ==> cloned(self.data->Some_0, r.data->Some_0),
    {
        let data = match &self.data {
            Some(v) => Some(v.clone()),
            None => None,
        };
        InstanceData { data, next: self.next }
    }
}

/// Values of type `T` by `u64` id, stored in reusable slots.
pub struct InstanceManager<T> {
    pub instances: AHashMap<u64, usize>,
    pub data: Vec<InstanceData<T>>,
    pub free_head: Option<usize>,
    /// The free list, from its head.
    pub free_list: Ghost<Seq<usize>>,
}

/// The slot the next new value goes to: the head of the free list, or a new slot at the
/// end.
pub open spec fn next_slot<T>(m: InstanceManager<T>) -> usize {
    match m.free_head {
        Some(h) => h,
        None => m.data@.len() as usize,
    }
}

/// The free list after its head is taken for a new value.
pub open spec fn free_after_take<T>(m: InstanceManager<T>) -> Seq<usize> {
    if m.free_head is Some {
        m.free_list@.drop_first()
    } else {
        m.free_list@
    }
}

impl<T> InstanceManager<T> {
    /// The id-to-slot map.
    pub open spec fn slots(&self) -> Map<u64, usize> {
        slot_map(self.instances)
    }

    /// Every id's slot holds a value and no two ids share a slot; the free list starts
    /// at `free_head`, links its slots in order through `next`, visits each at most
    /// once, and holds only empty slots.
    pub open spec fn wf(&self) -> bool {
        let fl = self.free_list@;
        &&& self.slots().dom().finite()
        &&& forall|k: u64|
            #[trigger] self.slots().contains_key(k) ==> self.slots()[k] < self.data@.len()
                && self.data@[self.slots()[k] as int].data is Some
        &&& forall|k1: u64, k2: u64|
            #[trigger] self.slots().contains_key(k1) && #[trigger] self.slots().contains_key(k2)
                && k1 != k2 ==> self.slots()[k1] != self.slots()[k2]
        &&& fl.no_duplicates()
        &&& forall|j: int|
            0 <= j < fl.len() ==> #[trigger] fl[j] < self.data@.len() && self.data@[fl[j] as int].data is None
        &&& self.free_head == (if fl.len() == 0 { None::<usize> } else { Some(fl[0]) })
        &&& forall|j: int|
            0 <= j < fl.len() ==> self.data@[#[trigger] fl[j] as int].next == (if j + 1 < fl.len() {
                Some(fl[j + 1])
            } else {
                None::<usize>
            })
    }

    /// The values by id.
    pub open spec fn view(&self) -> Map<u64, T> {
        Map::new(
            |k: u64| self.slots().contains_key(k),
            |k: u64| self.data@[self.slots()[k] as int].data->Some_0,
        )
    }

    /// An empty manager.
    pub fn new() -> (r: Self)
        ensures
            r.wf(),
            r.view() == Map::<u64, T>::empty(),
            r.data@.len() == 0,
    {
        let r = InstanceManager {
            instances: map_new(),
            data: Vec::new(),
            free_head: None,
            free_list: Ghost(Seq::empty()),
        };
        assert(r.view() =~= Map::<u64, T>::empty());
        r
    }

    /// An empty manager with room for `capacity` values.
    pub fn with_capacity(capacity: usize) -> (r: Self)
        ensures
            r.wf(),
            r.view() == Map::<u64, T>::empty(),
            r.data@.len() == 0,
    {
        let r = InstanceManager {
            instances: map_with_capacity(capacity),
            data: Vec::with_capacity(capacity),
            free_head: None,
            free_list: Ghost(Seq::empty()),
        };
        assert(r.view() =~= Map::<u64, T>::empty());
        r
    }

    /// The number of ids with values.
    pub fn len(&self) -> (r: usize)
        requires
            self.wf(),
        ensures
            r == self.view().len(),
    {
        proof {
            assert(self.view().dom() =~= self.slots().dom());
        }
        map_len(&self.instances)
    }

    /// Whether no id has a value.
    pub fn is_empty(&self) -> (r: bool)
        requires
            self.wf(),
        ensures
            r == (self.view().len() == 0),
    {
        self.len() == 0
    }

    /// The number of slots the value vector can hold without reallocating.
    pub fn capacity(&self) -> (r: usize)
        ensures
            r >= self.data@.len(),
    {
        vec_capacity(&self.data)
    }

    /// Whether `id` has a value.
    pub fn has(&self, id: u64) -> (r: bool)
        ensures
            r == self.view().contains_key(id),
    {
        map_contains(&self.instances, id)
    }

    /// Whether `id` has a value.
    pub fn contains_key(&self, id: &u64) -> (r: bool)
        ensures
            r == self.view().contains_key(*id),
    {
        map_contains(&self.instances, *id)
    }

    /// The value of `id`.
    pub fn get(&self, id: u64) -> (r: Option<&T>)
        requires
            self.wf(),
        ensures
            r == (if self.view().contains_key(id) {
                Some(&self.view()[id])
            } else {
                None::<&T>
            }),
    {
        match map_get(&self.instances, id) {
            None => None,
            Some(index) => match &self.data[index].data {
                Some(v) => Some(v),
                None => None,
            },
        }
    }
}

impl<T> Default for InstanceManager<T> {
    /// An empty manager.
    fn default() -> (r: Self)
        ensures
            r.wf(),
            r.view() == Map::<u64, T>::empty(),
            r.data@.len() == 0,
    {
        Self::new()
    }
}

impl<T: Clone> Clone for InstanceManager<T> {
    /// A copy with the same ids, slots and free list; each value is copied with `T`'s
    /// own `clone`.
    fn clone(&self) -> (r: Self)
        ensures
            r.slots() == self.slots(),
            r.free_head == self.free_head,
            r.free_list == self.free_list,
            r.data@.len() == self.data@.len(),
            forall|i: int|
                0 <= i < self.data@.len() ==> (#[trigger] r.data@[i]).next == self.data@[i].next
                    && (r.data@[i].data is Some <==> self.data@[i].data is Some) && (
                self.data@[i].data is Some ==> cloned(
                    self.data@[i].data->Some_0,
                    r.data@[i].data->Some_0,
                )),
            self.wf() ==> r.wf(),
            self.wf() ==> r.view().dom() == self.view().dom(),
            self.wf() ==> forall|k: u64|
                #[trigger] self.view().contains_key(k) ==> cloned(self.view()[k], r.view()[k]),
    {
        let mut data: Vec<InstanceData<T>> = Vec::with_capacity(self.data.len());
        let mut i: usize = 0;
        while i < self.data.len()
            invariant
                i <= self.data@.len(),
                data@.len() == i,
                forall|j: int|
                    0 <= j < i ==> (#[trigger] data@[j]).next == self.data@[j].next && (data@[j].data is Some
                        <==> self.data@[j].data is Some) && (self.data@[j].data is Some ==> cloned(
                        self.data@[j].data->Some_0,
                        data@[j].data->Some_0,
                    )),
            decreases self.data@.len() - i,
        {
            data.push(self.data[i].clone());
            i = i + 1;
        }
        let r = InstanceManager {
            instances: map_clone(&self.instances),
            data,
            free_head: self.free_head,
            free_list: Ghost(self.free_list@),
        };
        proof {
            if self.wf() {
                assert(r.view().dom() =~= self.view().dom());
                assert forall|k: u64| #[trigger] self.view().contains_key(k) implies cloned(
                    self.view()[k],
                    r.view()[k],
                ) by {
                    assert(r.data@[self.slots()[k] as int].data is Some);
                }
            }
        }
        r
    }
}

/// `n` is `m` with the value in the slot of `id` replaced by `v`.
pub open spec fn value_replaced<T>(m: InstanceManager<T>, n: InstanceManager<T>, id: u64, v: T) -> bool {
    let i = m.slots()[id] as int;
    &&& n.instances == m.instances
    &&& n.free_head == m.free_head
    &&& n.free_list == m.free_list
    &&& n.data@ == m.data@.update(i, InstanceData { data: Some(v), next: m.data@[i].next })
}

/// Replacing the value of an id keeps the manager well formed and changes only that
/// id's value.
proof fn lemma_value_replaced<T>(m: InstanceManager<T>, n: InstanceManager<T>, id: u64, v: T)
    requires
        m.wf(),
        m.slots().contains_key(id),
        value_replaced(m, n, id, v),
    ensures
        n.wf(),
        n.view() == m.view().insert(id, v),
{
    let i = m.slots()[id] as int;
    assert forall|j: int| 0 <= j < m.free_list@.len() implies m.free_list@[j] != i by {}
    assert(n.view() =~= m.view().insert(id, v));
}

/// `lemma_value_replaced` for every replacement of the value of `id` in `m`.
proof fn lemma_values_replaced<T>(m: InstanceManager<T>, id: u64)
    requires
        m.wf(),
        m.slots().contains_key(id),
    ensures
        forall|n: InstanceManager<T>, v: T|
            #[trigger] value_replaced(m, n, id, v) ==> n.wf() && n.view() == m.view().insert(id, v),
{
    assert forall|n: InstanceManager<T>, v: T| #[trigger] value_replaced(m, n, id, v) implies n.wf()
        && n.view() == m.view().insert(id, v) by {
        lemma_value_replaced(m, n, id, v);
    }
}

impl<T> InstanceManager<T> {
    /// The value of `id`, to change in place.
    pub fn get_mut(&mut self, id: u64) -> (r: Option<&mut T>)
        requires
            old(self).wf(),
        ensures
            match r {
                Some(v) => {
                    &&& old(self).view().contains_key(id)
                    &&& *v == old(self).view()[id]
                    &&& value_replaced(*old(self), *final(self), id, *final(v))
                },
                None => !old(self).view().contains_key(id) && *final(self) == *old(self),
            },
    {
        match map_get(&self.instances, id) {
            None => None,
            Some(index) => {
                let slot = &mut self.data[index];
                match &mut slot.data {
                    Some(v) => Some(v),
                    None => None,
                }
            },
        }
    }

    /// Takes a slot off the free list, or adds one; it holds no value and no id uses it.
    fn get_free_slot(&mut self) -> (r: usize)
        requires
            old(self).wf(),
        ensures
            final(self).wf(),
            r < final(self).data@.len(),
            final(self).data@[r as int].data is None,
            !final(self).free_list@.contains(r),
            final(self).instances == old(self).instances,
            final(self).view() == old(self).view(),
            final(self).data@.len() <= old(self).data@.len() + 1,
            old(self).free_head is Some ==> final(self).data@.len() == old(self).data@.len(),
            r == next_slot(*old(self)),
            final(self).free_list@ == free_after_take(*old(self)),
    {
        match self.free_head {
            Some(index) => {
                let ghost before = *self;
                let ghost fl = self.free_list@;
                self.free_head = self.data[index].next;
                self.data.set(index, InstanceData { data: None, next: None });
                self.free_list = Ghost(fl.drop_first());
                proof {
                    assert(fl[0] == index);
                    assert forall|k: u64| #[trigger] self.slots().contains_key(k) implies self.slots()[k]
                        != index by {}
                    assert forall|j: int| 0 <= j < self.free_list@.len() implies #[trigger] self.free_list@[j]
                        != index by {
                        assert(fl[j + 1] == self.free_list@[j]);
                    }
                    assert(self.view() =~= before.view());
                }
                index
            },
            None => {
                let ghost before = *self;
                let index = self.data.len();
                self.data.push(InstanceData { data: None, next: None });
                proof {
                    assert forall|k: u64| #[trigger] self.slots().contains_key(k) implies self.slots()[k]
                        < self.data@.len() && self.data@[self.slots()[k] as int].data is Some by {
                        assert(self.data@[self.slots()[k] as int] == before.data@[before.slots()[k] as int]);
                    }
                    assert(self.view() =~= before.view());
                }
                index
            },
        }
    }

    /// Gives `id`, which has no value, the value `data` in a free slot.
    fn create(&mut self, id: u64, data: T) -> (r: Option<&mut T>)
        requires
            old(self).wf(),
            !old(self).view().contains_key(id),
            old(self).data@.len() < usize::MAX,
        ensures
            r matches Some(v) && data == *v && final(self).wf() && final(self).view() == old(
                self,
            ).view().insert(id, *final(v)),
            old(self).free_head is Some ==> final(self).data@.len() == old(self).data@.len(),
            final(self).data@.len() <= old(self).data@.len() + 1,
            final(self).slots() == old(self).slots().insert(id, next_slot(*old(self))),
            final(self).free_list@ == free_after_take(*old(self)),
    {
        let index = self.get_free_slot();
        let ghost mid = *self;
        self.data.set(index, InstanceData { data: Some(data), next: None });
        map_insert(&mut self.instances, id, index);
        proof {
            assert forall|j: int| 0 <= j < self.free_list@.len() implies #[trigger] self.free_list@[j]
                != index by {}
            assert forall|k: u64| #[trigger] mid.slots().contains_key(k) implies mid.slots()[k]
                != index by {}
            assert(self.view() =~= mid.view().insert(id, data));
        }
        let ghost filled = *self;
        let slot = &mut self.data[index];
        let r = match &mut slot.data {
            Some(v) => Some(v),
            None => None,
        };
        proof {
            assert(filled.slots()[id] == index);
        }
        r
    }

    /// Replaces the value of `id`, which has one.
    fn update(&mut self, id: u64, data: T) -> (r: Option<&mut T>)
        requires
            old(self).wf(),
            old(self).view().contains_key(id),
        ensures
            r matches Some(v) && data == *v && final(self).wf() && final(self).view() == old(
                self,
            ).view().insert(id, *final(v)),
            final(self).data@.len() == old(self).data@.len(),
            final(self).slots() == old(self).slots(),
            final(self).free_list@ == old(self).free_list@,
    {
        let index = match map_get(&self.instances, id) {
            Some(i) => i,
            None => return None,
        };
        let ghost before = *self;
        let next = self.data[index].next;
        self.data.set(index, InstanceData { data: Some(data), next });
        proof {
            lemma_value_replaced(before, *self, id, data);
        }
        self.get_mut(id)
    }
}

impl<T> InstanceManager<T> {
    /// Sets the value of `id`, creating it when it has none.
    pub fn create_or_update(&mut self, id: u64, data: T) -> (r: Option<&mut T>)
        requires
            old(self).wf(),
            old(self).data@.len() < usize::MAX,
        ensures
            r matches Some(v) && data == *v && final(self).wf() && final(self).view() == old(
                self,
            ).view().insert(id, *final(v)),
            (old(self).free_head is Some) || old(self).view().contains_key(id)
                ==> final(self).data@.len() == old(self).data@.len(),
            final(self).data@.len() <= old(self).data@.len() + 1,
            final(self).slots() == old(self).slots().insert(
                id,
                if old(self).view().contains_key(id) {
                    old(self).slots()[id]
                } else {
                    next_slot(*old(self))
                },
            ),
            final(self).free_list@ == if old(self).view().contains_key(id) {
                old(self).free_list@
            } else {
                free_after_take(*old(self))
            },
    {
        if !self.has(id) {
            self.create(id, data)
        } else {
            self.update(id, data)
        }
    }

    /// Sets the value of `id`; gives the value it had.
    pub fn insert(&mut self, id: u64, data: T) -> (r: Option<T>)
        requires
            old(self).wf(),
            old(self).data@.len() < usize::MAX,
        ensures
            final(self).wf(),
            final(self).view() == old(self).view().insert(id, data),
            final(self).data@.len() <= old(self).data@.len() + 1,
            r == (if old(self).view().contains_key(id) {
                Some(old(self).view()[id])
            } else {
                None::<T>
            }),
            final(self).slots() == old(self).slots().insert(
                id,
                if old(self).view().contains_key(id) {
                    old(self).slots()[id]
                } else {
                    next_slot(*old(self))
                },
            ),
            final(self).free_list@ == if old(self).view().contains_key(id) {
                old(self).free_list@
            } else {
                free_after_take(*old(self))
            },
            old(self).free_head is Some || old(self).view().contains_key(id) ==> final(self).data@.len() == old(
                self,
            ).data@.len(),
    {
        let old_value = self.remove(id);
        let ghost mid = *self;
        let _ = self.create(id, data);
        proof {
            assert(mid.view().insert(id, data) =~= old(self).view().insert(id, data));
            if old(self).view().contains_key(id) {
                assert((seq![old(self).slots()[id]].add(old(self).free_list@)).drop_first() =~= old(self).free_list@);
                assert(old(self).slots().remove(id).insert(id, old(self).slots()[id]) =~= old(self).slots().insert(
                    id,
                    old(self).slots()[id],
                ));
            } else {
                assert(old(self).slots().remove(id) =~= old(self).slots());
            }
        }
        old_value
    }

    /// Removes the value of `id` and gives it back.
    pub fn remove(&mut self, id: u64) -> (r: Option<T>)
        requires
            old(self).wf(),
        ensures
            final(self).wf(),
            final(self).view() == old(self).view().remove(id),
            final(self).data@.len() == old(self).data@.len(),
            old(self).view().contains_key(id) ==> final(self).free_head is Some,
            final(self).slots() == old(self).slots().remove(id),
            old(self).view().contains_key(id) ==> final(self).free_list@ == seq![old(self).slots()[id]].add(
                old(self).free_list@,
            ) && final(self).free_head == Some(old(self).slots()[id]),
            !old(self).view().contains_key(id) ==> final(self).free_list@ == old(self).free_list@
                && final(self).free_head == old(self).free_head && final(self).data@ == old(self).data@,
            r == (if old(self).view().contains_key(id) {
                Some(old(self).view()[id])
            } else {
                None::<T>
            }),
    {
        self.pop(id)
    }

    /// Removes the value of `id`, puts its slot at the head of the free list and gives
    /// the value back.
    pub fn pop(&mut self, id: u64) -> (r: Option<T>)
        requires
            old(self).wf(),
        ensures
            final(self).wf(),
            final(self).view() == old(self).view().remove(id),
            final(self).data@.len() == old(self).data@.len(),
            old(self).view().contains_key(id) ==> final(self).free_head is Some,
            final(self).slots() == old(self).slots().remove(id),
            old(self).view().contains_key(id) ==> final(self).free_list@ == seq![old(self).slots()[id]].add(
                old(self).free_list@,
            ) && final(self).free_head == Some(old(self).slots()[id]),
            !old(self).view().contains_key(id) ==> final(self).free_list@ == old(self).free_list@
                && final(self).free_head == old(self).free_head && final(self).data@ == old(self).data@,
            r == (if old(self).view().contains_key(id) {
                Some(old(self).view()[id])
            } else {
                None::<T>
            }),
    {
        let ghost before = *self;
        let index = match map_remove(&mut self.instances, id) {
            Some(i) => i,
            None => {
                assert(self.view() =~= before.view().remove(id));
                return None;
            },
        };
        let ghost fl = self.free_list@;
        let slot = InstanceData { data: None, next: self.free_head };
        let taken = vec_replace(&mut self.data, index, slot);
        self.free_head = Some(index);
        self.free_list = Ghost(seq![index].add(fl));
        proof {
            assert forall|j: int| 0 <= j < fl.len() implies #[trigger] fl[j] != index by {}
            assert forall|k: u64| #[trigger] self.slots().contains_key(k) implies self.slots()[k]
                != index by {
                assert(k != id);
                assert(before.slots().contains_key(k));
            }
            let nf = self.free_list@;
            assert forall|j: int| 0 <= j < nf.len() implies self.data@[#[trigger] nf[j] as int].next == (
            if j + 1 < nf.len() {
                Some(nf[j + 1])
            } else {
                None::<usize>
            }) by {
                if j > 0 {
                    assert(nf[j] == fl[j - 1]);
                }
            }
            assert forall|a: int, b: int| 0 <= a < b < nf.len() implies nf[a] != nf[b] by {
                if a > 0 {
                    assert(nf[a] == fl[a - 1] && nf[b] == fl[b - 1]);
                } else {
                    assert(nf[b] == fl[b - 1]);
                }
            }
            assert(self.view() =~= before.view().remove(id));
        }
        taken.data
    }

    /// Replaces the value of `id` if it has one.
    pub fn set_data(&mut self, id: u64, data: T) -> (r: Option<()>)
        requires
            old(self).wf(),
        ensures
            final(self).wf(),
            r is Some <==> old(self).view().contains_key(id),
            final(self).view() == if old(self).view().contains_key(id) {
                old(self).view().insert(id, data)
            } else {
                old(self).view()
            },
    {
        let index = match map_get(&self.instances, id) {
            Some(i) => i,
            None => return None,
        };
        let ghost before = *self;
        let next = self.data[index].next;
        self.data.set(index, InstanceData { data: Some(data), next });
        proof {
            lemma_value_replaced(before, *self, id, data);
        }
        Some(())
    }

    /// Removes every value and every slot.
    pub fn clear(&mut self)
        ensures
            final(self).wf(),
            final(self).view() == Map::<u64, T>::empty(),
    {
        map_clear(&mut self.instances);
        self.data.clear();
        self.free_head = None;
        self.free_list = Ghost(Seq::empty());
        assert(self.view() =~= Map::<u64, T>::empty());
    }

    /// Makes room for `additional` more values.
    pub fn reserve(&mut self, additional: usize)
        requires
            old(self).wf(),
        ensures
            final(self).wf(),
            final(self).view() == old(self).view(),
    {
        map_reserve(&mut self.instances, additional);
        vec_reserve(&mut self.data, additional);
        assert(self.view() =~= old(self).view());
    }

    /// Gives back unused room.
    pub fn shrink_to_fit(&mut self)
        requires
            old(self).wf(),
        ensures
            final(self).wf(),
            final(self).view() == old(self).view(),
    {
        map_shrink_to_fit(&mut self.instances);
        vec_shrink_to_fit(&mut self.data);
        assert(self.view() =~= old(self).view());
    }

    /// The ids that have values, each once, in no stated order.
    pub fn keys(&self) -> (r: Vec<u64>)
        ensures
            r@.to_set() == self.view().dom(),
            r@.no_duplicates(),
    {
        let r = map_keys(&self.instances);
        assert(self.view().dom() =~= self.slots().dom());
        r
    }

    /// Every id with its value, each id once, in no stated order.
    pub fn iter(&self) -> (r: Vec<(u64, &T)>)
        requires
            self.wf(),
        ensures
            r@.map_values(|p: (u64, &T)| p.0).to_set() == self.view().dom(),
            r@.map_values(|p: (u64, &T)| p.0).no_duplicates(),
            forall|i: int| 0 <= i < r@.len() ==> *(#[trigger] r@[i]).1 == self.view()[r@[i].0],
    {
        let keys = self.keys();
        let mut out: Vec<(u64, &T)> = Vec::new();
        let mut i: usize = 0;
        while i < keys.len()
            invariant
                self.wf(),
                i <= keys@.len(),
                keys@.to_set() == self.view().dom(),
                out@.len() == i,
                forall|j: int| 0 <= j < i ==> (#[trigger] out@[j]).0 == keys@[j] && *out@[j].1 == self.view()[keys@[j]],
            decreases keys@.len() - i,
        {
            let k = keys[i];
            proof {
                assert(keys@.to_set().contains(k));
            }
            match self.get(k) {
                Some(v) => out.push((k, v)),
                None => {},
            }
            i = i + 1;
        }
        assert(out@.map_values(|p: (u64, &T)| p.0) =~= keys@);
        out
    }

    /// For each slot, the id whose value it holds, if any.
    fn slot_owners(&self) -> (r: Vec<Option<u64>>)
        requires
            self.wf(),
        ensures
            r@.len() == self.data@.len(),
            forall|j: int|
                0 <= j < r@.len() && (#[trigger] r@[j]) is Some ==> self.slots().contains_key(r@[j]->Some_0)
                    && self.slots()[r@[j]->Some_0] == j,
            forall|k: u64| #[trigger] self.slots().contains_key(k) ==> r@[self.slots()[k] as int] == Some(k),
    {
        let n = self.data.len();
        let mut owner: Vec<Option<u64>> = Vec::new();
        let mut j: usize = 0;
        while j < n
            invariant
                j <= n,
                n == self.data@.len(),
                owner@.len() == j,
                forall|i: int| 0 <= i < j ==> (#[trigger] owner@[i]) is None,
            decreases n - j,
        {
            owner.push(None);
            j = j + 1;
        }
        let keys = self.keys();
        let ghost sl = self.slots();
        proof {
            assert(self.view().dom() =~= sl.dom());
        }
        let mut i: usize = 0;
        while i < keys.len()
            invariant
                sl == self.slots(),
                forall|k: u64| #[trigger] sl.contains_key(k) ==> sl[k] < self.data@.len(),
                forall|k1: u64, k2: u64|
                    #[trigger] sl.contains_key(k1) && #[trigger] sl.contains_key(k2) && k1 != k2
                        ==> sl[k1] != sl[k2],
                i <= keys@.len(),
                keys@.to_set() == sl.dom(),
                keys@.no_duplicates(),
                owner@.len() == self.data@.len(),
                forall|j: int|
                    0 <= j < owner@.len() && (#[trigger] owner@[j]) is Some ==> sl.contains_key(owner@[j]->Some_0)
                        && sl[owner@[j]->Some_0] == j,
                forall|m: int| 0 <= m < i ==> owner@[sl[#[trigger] keys@[m]] as int] == Some(keys@[m]),
            decreases keys@.len() - i,
        {
            let k = keys[i];
            proof {
                assert(keys@.to_set().contains(k));
            }
            match map_get(&self.instances, k) {
                Some(slot) => {
                    owner.set(slot, Some(k));
                },
                None => {},
            }
            proof {
                assert forall|m: int| 0 <= m < i + 1 implies owner@[sl[#[trigger] keys@[m]] as int] == Some(
                    keys@[m],
                ) by {
                    if m < i {
                        assert(keys@[m] != k);
                        assert(keys@.to_set().contains(keys@[m]));
                    }
                }
            }
            i = i + 1;
        }
        proof {
            assert forall|k: u64| #[trigger] sl.contains_key(k) implies owner@[sl[k] as int] == Some(k) by {
                assert(keys@.to_set().contains(k));
                let m = choose|m: int| 0 <= m < keys@.len() && keys@[m] == k;
                assert(owner@[sl[keys@[m]] as int] == Some(keys@[m]));
            }
        }
        owner
    }

    /// The values, one per id, in the order of `keys`.
    pub fn values(&self) -> (r: Vec<&T>)
        requires
            self.wf(),
        ensures
            exists|ks: Seq<u64>|
                {
                    &&& #[trigger] ks.to_set() == self.view().dom()
                    &&& ks.no_duplicates()
                    &&& r@.len() == ks.len()
                    &&& forall|i: int| 0 <= i < ks.len() ==> *r@[i] == self.view()[ks[i]]
                },
    {
        let keys = self.keys();
        let mut out: Vec<&T> = Vec::new();
        let mut i: usize = 0;
        while i < keys.len()
            invariant
                self.wf(),
                i <= keys@.len(),
                keys@.to_set() == self.view().dom(),
                out@.len() == i,
                forall|j: int| 0 <= j < i ==> *out@[j] == self.view()[keys@[j]],
            decreases keys@.len() - i,
        {
            let k = keys[i];
            proof {
                assert(keys@.to_set().contains(k));
            }
            match self.get(k) {
                Some(v) => out.push(v),
                None => {},
            }
            i = i + 1;
        }
        assert(keys@.to_set() == self.view().dom());
        out
    }

    /// The ids on whose values `f` answers `true`; `f` answers `false` on every other
    /// id's value.
    #[verifier::spinoff_prover]
    #[verifier::rlimit(60)]
    fn picked<F>(&self, f: &F) -> (r: Vec<u64>)
        where
            F: Fn(u64, &T) -> bool,
        requires
            self.wf(),
            forall|k: u64, v: &T| #[trigger] f.requires((k, v)),
        ensures
            forall|m: int|
                0 <= m < r@.len() ==> self.view().contains_key(#[trigger] r@[m]) && f.ensures(
                    (r@[m], &self.view()[r@[m]]),
                    true,
                ),
            forall|k: u64|
                #[trigger] self.view().contains_key(k) ==> r@.contains(k) || f.ensures(
                    (k, &self.view()[k]),
                    false,
                ),
    {
        let keys = self.keys();
        let mut chosen: Vec<u64> = Vec::new();
        let mut i: usize = 0;
        while i < keys.len()
            invariant
                self.wf(),
                forall|k: u64, v: &T| #[trigger] f.requires((k, v)),
                i <= keys@.len(),
                keys@.to_set() == self.view().dom(),
                forall|m: int|
                    0 <= m < chosen@.len() ==> self.view().contains_key(#[trigger] chosen@[m])
                        && f.ensures((chosen@[m], &self.view()[chosen@[m]]), true),
                forall|m: int|
                    0 <= m < i ==> #[trigger] chosen@.contains(keys@[m]) || f.ensures(
                        (keys@[m], &self.view()[keys@[m]]),
                        false,
                    ),
            decreases keys@.len() - i,
        {
            let k = keys[i];
            proof {
                assert(keys@.to_set().contains(k));
            }
            let ghost before = chosen@;
            match self.get(k) {
                Some(v) => {
                    if f(k, v) {
                        chosen.push(k);
                        proof {
                            assert(chosen@[chosen@.len() - 1] == k);
                        }
                    }
                },
                None => {},
            }
            proof {
                assert forall|m: int| 0 <= m < i + 1 implies #[trigger] chosen@.contains(keys@[m])
                    || f.ensures((keys@[m], &self.view()[keys@[m]]), false) by {
                    if m < i && before.contains(keys@[m]) {
                        let w = choose|w: int| 0 <= w < before.len() && before[w] == keys@[m];
                        assert(chosen@[w] == keys@[m]);
                    }
                }
            }
            i = i + 1;
        }
        proof {
            assert forall|k: u64| #[trigger] self.view().contains_key(k) implies chosen@.contains(k)
                || f.ensures((k, &self.view()[k]), false) by {
                assert(keys@.to_set().contains(k));
                let m = choose|m: int| 0 <= m < keys@.len() && keys@[m] == k;
                assert(chosen@.contains(keys@[m]) || f.ensures((keys@[m], &self.view()[keys@[m]]), false));
            }
        }
        chosen
    }

    /// Removes the values of all of `ids`.
    fn remove_all(&mut self, ids: &Vec<u64>)
        requires
            old(self).wf(),
        ensures
            final(self).wf(),
            final(self).view() == old(self).view().remove_keys(ids@.to_set()),
    {
        let mut j: usize = 0;
        while j < ids.len()
            invariant
                self.wf(),
                j <= ids@.len(),
                self.view() == old(self).view().remove_keys(ids@.subrange(0, j as int).to_set()),
            decreases ids@.len() - j,
        {
            let k = ids[j];
            self.remove(k);
            proof {
                lemma_remove_one_more(old(self).view(), ids@, j as int);
            }
            j = j + 1;
        }
        assert(ids@.subrange(0, ids@.len() as int) =~= ids@);
    }

    /// Removes every id on whose value `f` answers `true`.
    pub fn remove_if<F>(&mut self, f: F)
        where
            F: Fn(u64, &T) -> bool,
        requires
            old(self).wf(),
            forall|k: u64, v: &T| #[trigger] f.requires((k, v)),
        ensures
            final(self).wf(),
            final(self).view().dom().subset_of(old(self).view().dom()),
            forall|k: u64|
                #[trigger] final(self).view().contains_key(k) ==> final(self).view()[k] == old(
                    self,
                ).view()[k] && f.ensures((k, &old(self).view()[k]), false),
            forall|k: u64|
                #[trigger] old(self).view().contains_key(k) && !final(self).view().contains_key(k)
                    ==> f.ensures((k, &old(self).view()[k]), true),
    {
        let chosen = self.picked(&f);
        let ghost start = self.view();
        self.remove_all(&chosen);
        proof {
            assert forall|k: u64| #[trigger] self.view().contains_key(k) implies self.view()[k] == start[k]
                && f.ensures((k, &start[k]), false) by {
                if chosen@.contains(k) {
                    assert(chosen@.to_set().contains(k));
                }
            }
            assert forall|k: u64| #[trigger] start.contains_key(k) && !self.view().contains_key(k)
                implies f.ensures((k, &start[k]), true) by {
                assert(chosen@.to_set().contains(k));
                let m = choose|m: int| 0 <= m < chosen@.len() && chosen@[m] == k;
                assert(f.ensures((chosen@[m], &start[chosen@[m]]), true));
            }
        }
    }

    /// Keeps only the ids on whose value `f` answers `true`.
    pub fn retain<F>(&mut self, f: F)
        where
            F: Fn(u64, &T) -> bool,
        requires
            old(self).wf(),
            forall|k: u64, v: &T| #[trigger] f.requires((k, v)),
        ensures
            final(self).wf(),
            final(self).view().dom().subset_of(old(self).view().dom()),
            forall|k: u64|
                #[trigger] final(self).view().contains_key(k) ==> final(self).view()[k] == old(
                    self,
                ).view()[k] && f.ensures((k, &old(self).view()[k]), true),
            forall|k: u64|
                #[trigger] old(self).view().contains_key(k) && !final(self).view().contains_key(k)
                    ==> f.ensures((k, &old(self).view()[k]), false),
    {
        let keeps = &f;
        let rejects = |k: u64, v: &T| -> (b: bool)
            requires
                keeps.requires((k, v)),
            ensures
                keeps.ensures((k, v), !b),
            { !keeps(k, v) };
        self.remove_if(rejects);
    }
}

impl<T> InstanceManager<T> {
    /// Calls `f` on every id and its value, which it may change in place.
    pub fn for_each_mut<F>(&mut self, f: F)
        where
            F: Fn(u64, &mut T),
        requires
            old(self).wf(),
            forall|k: u64, v: &mut T| #[trigger] f.requires((k, v)),
        ensures
            final(self).wf(),
            final(self).view().dom() == old(self).view().dom(),
            forall|k: u64|
                #[trigger] old(self).view().contains_key(k) ==> exists|v: &mut T|
                    #[trigger] f.ensures((k, v), ()) && *v == old(self).view()[k] && *final(v)
                        == final(self).view()[k],
    {
        let keys = self.keys();
        let ghost start = self.view();
        let ghost mut done: Set<u64> = Set::empty();
        let mut i: usize = 0;
        while i < keys.len()
            invariant
                self.wf(),
                forall|k: u64, v: &mut T| #[trigger] f.requires((k, v)),
                i <= keys@.len(),
                keys@.to_set() == start.dom(),
                keys@.no_duplicates(),
                self.view().dom() == start.dom(),
                done == keys@.subrange(0, i as int).to_set(),
                forall|k: u64|
                    #[trigger] done.contains(k) ==> exists|v: &mut T|
                        #[trigger] f.ensures((k, v), ()) && *v == start[k] && *final(v) == self.view()[k],
                forall|k: u64|
                    #[trigger] start.contains_key(k) && !done.contains(k) ==> self.view()[k] == start[k],
            decreases keys@.len() - i,
        {
            let k = keys[i];
            proof {
                assert(keys@.to_set().contains(k));
                assert(!done.contains(k)) by {
                    if done.contains(k) {
                        let m = choose|m: int| 0 <= m < i && keys@.subrange(0, i as int)[m] == k;
                        assert(keys@[m] == keys@[i as int]);
                    }
                }
            }
            let ghost prev = *self;
            match self.get_mut(k) {
                Some(r) => {
                    let ghost held = r;
                    f(k, r);
                    proof {
                        lemma_value_replaced(prev, *self, k, *final(held));
                        assert(exists|v: &mut T|
                            #[trigger] f.ensures((k, v), ()) && *v == start[k] && *final(v) == self.view()[k]);
                    }
                },
                None => {
                    assert(false);
                },
            }
            proof {
                assert(keys@.subrange(0, i + 1) =~= keys@.subrange(0, i as int).push(k));
                keys@.subrange(0, i as int).lemma_push_to_set_commute(k);
                done = done.insert(k);
            }
            i = i + 1;
        }
        proof {
            assert(keys@.subrange(0, i as int) =~= keys@);
            assert forall|k: u64| #[trigger] start.contains_key(k) implies exists|v: &mut T|
                #[trigger] f.ensures((k, v), ()) && *v == start[k] && *final(v) == self.view()[k] by {
                assert(keys@.to_set().contains(k));
                assert(done.contains(k));
            }
        }
    }
}

impl<T> InstanceManager<T> {
    /// The entry of `key`: occupied when it has a value, vacant when not.
    pub fn entry(&mut self, key: u64) -> (r: Entry<'_, T>)
        requires
            old(self).wf(),
        ensures
            r.key() == key,
            *r.manager() == *old(self),
            *final(r.manager()) == *final(self),
            r is Occupied <==> old(self).view().contains_key(key),
    {
        if self.contains_key(&key) {
            Entry::Occupied(OccupiedEntry { manager: self, key })
        } else {
            Entry::Vacant(VacantEntry { manager: self, key })
        }
    }
}

/// An id that has a value, with the manager that holds it.
pub struct OccupiedEntry<'a, T> {
    manager: &'a mut InstanceManager<T>,
    key: u64,
}

/// An id that has no value, with the manager that would hold it.
pub struct VacantEntry<'a, T> {
    manager: &'a mut InstanceManager<T>,
    key: u64,
}

/// The place of one id in a manager.
pub enum Entry<'a, T> {
    Occupied(OccupiedEntry<'a, T>),
    Vacant(VacantEntry<'a, T>),
}

impl<'a, T> Entry<'a, T> {
    /// The manager the entry lives in.
    pub open spec fn manager(self) -> &'a mut InstanceManager<T> {
        match self {
            Entry::Occupied(e) => e.manager(),
            Entry::Vacant(e) => e.manager(),
        }
    }

    /// The id of the entry.
    pub open spec fn key(self) -> u64 {
        match self {
            Entry::Occupied(e) => e.key(),
            Entry::Vacant(e) => e.key(),
        }
    }

    /// The manager is well formed, and the entry is occupied exactly when its id has a
    /// value.
    pub open spec fn wf(self) -> bool {
        &&& self.manager().wf()
        &&& (self is Occupied <==> self.manager().view().contains_key(self.key()))
    }

    /// The value of the id, given `default` first when it has none.
    pub fn or_insert(self, default: T) -> (r: &'a mut T)
        requires
            self.wf(),
            self is Vacant ==> self.manager().data@.len() < usize::MAX,
        ensures
            *r == (if old(self.manager()).view().contains_key(self.key()) {
                old(self.manager()).view()[self.key()]
            } else {
                default
            }),
            final(self.manager()).wf(),
            final(self.manager()).view() == old(self.manager()).view().insert(self.key(), *final(r)),
    {
        match self {
            Entry::Occupied(entry) => entry.into_mut(),
            Entry::Vacant(entry) => entry.insert(default),
        }
    }

    /// The value of the id, given the result of `default` first when it has none.
    pub fn or_insert_with<F>(self, default: F) -> (r: &'a mut T)
        where
            F: FnOnce() -> T,
        requires
            self.wf(),
            self is Vacant ==> self.manager().data@.len() < usize::MAX,
            self is Vacant ==> default.requires(()),
        ensures
            old(self.manager()).view().contains_key(self.key()) ==> *r == old(
                self.manager(),
            ).view()[self.key()],
            !old(self.manager()).view().contains_key(self.key()) ==> default.ensures((), *r),
            final(self.manager()).wf(),
            final(self.manager()).view() == old(self.manager()).view().insert(self.key(), *final(r)),
    {
        match self {
            Entry::Occupied(entry) => entry.into_mut(),
            Entry::Vacant(entry) => entry.insert(default()),
        }
    }

    /// Lets `f` change the value of the id, when it has one.
    pub fn and_modify<F>(self, f: F) -> (r: Self)
        where
            F: FnOnce(&mut T),
        requires
            self.wf(),
            forall|v: &mut T| #[trigger] f.requires((v,)),
        ensures
            r.key() == self.key(),
            r is Occupied <==> self is Occupied,
            r.wf(),
            *final(r.manager()) == *final(self.manager()),
            self is Vacant ==> *r.manager() == *old(self.manager()),
            self is Occupied ==> r.manager().view() == old(self.manager()).view().insert(
                self.key(),
                r.manager().view()[self.key()],
            ),
            self is Occupied ==> exists|v: &mut T|
                #[trigger] f.ensures((v,), ()) && *v == old(self.manager()).view()[self.key()]
                    && *final(v) == r.manager().view()[self.key()],
    {
        match self {
            Entry::Occupied(entry) => {
                let OccupiedEntry { manager, key } = entry;
                let ghost before = *manager;
                match manager.get_mut(key) {
                    Some(v) => {
                        let ghost held = v;
                        f(v);
                        proof {
                            lemma_value_replaced(before, *manager, key, *final(held));
                        }
                    },
                    None => {},
                }
                Entry::Occupied(OccupiedEntry { manager, key })
            },
            Entry::Vacant(entry) => Entry::Vacant(entry),
        }
    }
}

impl<'a, T> OccupiedEntry<'a, T> {
    /// The manager the entry lives in.
    pub closed spec fn manager(self) -> &'a mut InstanceManager<T> {
        self.manager
    }

    /// The id of the entry.
    pub closed spec fn key(self) -> u64 {
        self.key
    }

    /// The value of the id.
    pub fn get(&self) -> (r: &T)
        requires
            self.manager().wf(),
            self.manager().view().contains_key(self.key()),
        ensures
            *r == self.manager().view()[self.key()],
    {
        self.manager.get(self.key).unwrap()
    }

    /// The value of the id, to change in place while the entry is borrowed.
    pub fn get_mut(&mut self) -> (r: &mut T)
        requires
            old(self).manager().wf(),
            old(self).manager().view().contains_key(old(self).key()),
        ensures
            final(self).key() == old(self).key(),
            *r == old(self).manager().view()[old(self).key()],
            final(self).manager().wf(),
            final(self).manager().view() == old(self).manager().view().insert(old(self).key(), *final(r)),
            *final(final(self).manager()) == *final(old(self).manager()),
    {
        proof {
            lemma_values_replaced(*self.manager, self.key);
        }
        self.manager.get_mut(self.key).unwrap()
    }

    /// Replaces the value of the id and gives back the one it had.
    pub fn insert(&mut self, value: T) -> (r: T)
        requires
            old(self).manager().wf(),
            old(self).manager().view().contains_key(old(self).key()),
        ensures
            final(self).key() == old(self).key(),
            r == old(self).manager().view()[old(self).key()],
            final(self).manager().wf(),
            final(self).manager().view() == old(self).manager().view().insert(old(self).key(), value),
            *final(final(self).manager()) == *final(old(self).manager()),
    {
        let slot = self.get_mut();
        let mut value = value;
        core::mem::swap(slot, &mut value);
        value
    }

    /// The value of the id, to change in place for as long as the manager lives.
    pub fn into_mut(self) -> (r: &'a mut T)
        requires
            self.manager().wf(),
            self.manager().view().contains_key(self.key()),
        ensures
            *r == old(self.manager()).view()[self.key()],
            final(self.manager()).wf(),
            final(self.manager()).view() == old(self.manager()).view().insert(self.key(), *final(r)),
    {
        proof {
            lemma_values_replaced(*self.manager, self.key);
        }
        self.manager.get_mut(self.key).unwrap()
    }

    /// Removes the value of the id and gives it back.
    pub fn remove(self) -> (r: T)
        requires
            self.manager().wf(),
            self.manager().view().contains_key(self.key()),
        ensures
            r == old(self.manager()).view()[self.key()],
            final(self.manager()).wf(),
            final(self.manager()).view() == old(self.manager()).view().remove(self.key()),
    {
        self.manager.remove(self.key).unwrap()
    }
}

impl<'a, T> VacantEntry<'a, T> {
    /// The manager the entry lives in.
    pub closed spec fn manager(self) -> &'a mut InstanceManager<T> {
        self.manager
    }

    /// The id of the entry.
    pub closed spec fn key(self) -> u64 {
        self.key
    }

    /// Gives the id the value `value`, to change in place for as long as the manager
    /// lives.
    pub fn insert(self, value: T) -> (r: &'a mut T)
        requires
            self.manager().wf(),
            !self.manager().view().contains_key(self.key()),
            self.manager().data@.len() < usize::MAX,
        ensures
            *r == value,
            final(self.manager()).wf(),
            final(self.manager()).view() == old(self.manager()).view().insert(self.key(), *final(r)),
    {
        self.manager.create(self.key, value).unwrap()
    }
}

/// `n` is `m` with new values in the slots of ids, and every other slot unchanged;
/// `owner` names the id of each slot.
pub open spec fn refilled<T>(m: InstanceManager<T>, n: InstanceManager<T>, owner: Seq<Option<u64>>) -> bool {
    &&& n.instances == m.instances
    &&& n.free_head == m.free_head
    &&& n.free_list == m.free_list
    &&& n.data@.len() == m.data@.len()
    &&& owner.len() == m.data@.len()
    &&& forall|j: int|
        0 <= j < owner.len() && (#[trigger] owner[j]) is Some ==> m.slots().contains_key(owner[j]->Some_0)
            && m.slots()[owner[j]->Some_0] == j
    &&& forall|k: u64| #[trigger] m.slots().contains_key(k) ==> owner[m.slots()[k] as int] == Some(k)
    &&& forall|j: int| 0 <= j < owner.len() && owner[j] is None ==> #[trigger] n.data@[j] == m.data@[j]
    &&& forall|j: int|
        0 <= j < owner.len() && owner[j] is Some ==> (#[trigger] n.data@[j]).next == m.data@[j].next
            && n.data@[j].data is Some
}

/// Refilling the slots of ids keeps the manager well formed and keeps its ids.
proof fn lemma_refilled<T>(m: InstanceManager<T>, owner: Seq<Option<u64>>)
    requires
        m.wf(),
    ensures
        forall|n: InstanceManager<T>|
            #[trigger] refilled(m, n, owner) ==> n.wf() && n.view().dom() == m.view().dom()
                && forall|k: u64|
                #[trigger] m.slots().contains_key(k) ==> n.view()[k] == n.data@[m.slots()[k] as int].data->Some_0,
{
    assert forall|n: InstanceManager<T>| #[trigger] refilled(m, n, owner) implies n.wf() && n.view().dom()
        == m.view().dom() && forall|k: u64|
        #[trigger] m.slots().contains_key(k) ==> n.view()[k] == n.data@[m.slots()[k] as int].data->Some_0 by {
        let fl = m.free_list@;
        assert forall|k: u64| #[trigger] n.slots().contains_key(k) implies n.slots()[k] < n.data@.len()
            && n.data@[n.slots()[k] as int].data is Some by {
            assert(owner[m.slots()[k] as int] == Some(k));
        }
        assert forall|j: int| 0 <= j < fl.len() implies #[trigger] fl[j] < n.data@.len()
            && n.data@[fl[j] as int].data is None && n.data@[fl[j] as int].next == m.data@[fl[j] as int].next by {
            if owner[fl[j] as int] is Some {
                let k = owner[fl[j] as int]->Some_0;
                assert(m.slots()[k] == fl[j]);
                assert(m.data@[fl[j] as int].data is None);
            }
        }
        assert(n.view().dom() =~= m.view().dom());
    }
}

impl<T> InstanceManager<T> {
    /// Every id with its value, to change in place while the manager is borrowed; each
    /// id once, in no stated order.
    #[verifier::rlimit(100)]
    pub fn iter_mut(&mut self) -> (r: Vec<(u64, &mut T)>)
        requires
            old(self).wf(),
        ensures
            r@.map_values(|p: (u64, &mut T)| p.0).to_set() == old(self).view().dom(),
            r@.map_values(|p: (u64, &mut T)| p.0).no_duplicates(),
            forall|i: int| 0 <= i < r@.len() ==> *(#[trigger] r@[i]).1 == old(self).view()[r@[i].0],
            final(self).wf(),
            final(self).view().dom() == old(self).view().dom(),
            forall|i: int|
                0 <= i < r@.len() ==> final(self).view()[(#[trigger] r@[i]).0] == *final(r@[i].1),
    {
        let owner = self.slot_owners();
        let ghost st = *self;
        proof {
            lemma_refilled(st, owner@);
        }
        let len = self.data.len();
        let mut out: Vec<(u64, &mut T)> = Vec::new();
        let mut rest: &mut [InstanceData<T>] = self.data.as_mut_slice();
        let ghost whole = rest;
        let ghost mut pos: Seq<int> = Seq::empty();
        let mut idx: usize = 0;
        while rest.len() > 0
            invariant
                idx + rest@.len() == len,
                len == st.data@.len(),
                owner@.len() == len,
                forall|j: int|
                    0 <= j < owner@.len() && (#[trigger] owner@[j]) is Some ==> st.slots().contains_key(
                        owner@[j]->Some_0,
                    ) && st.slots()[owner@[j]->Some_0] == j,
                forall|k: u64| #[trigger] st.slots().contains_key(k) ==> owner@[st.slots()[k] as int] == Some(k),
                forall|k: u64|
                    #[trigger] st.slots().contains_key(k) ==> st.slots()[k] < len && st.data@[st.slots()[k] as int].data is Some,
                forall|j: int| 0 <= j < rest@.len() ==> #[trigger] rest@[j] == st.data@[idx + j],
                pos.len() == idx,
                forall|j: int|
                    0 <= j < idx && (#[trigger] owner@[j]) is Some ==> 0 <= pos[j] < out@.len() && out@[pos[j]].0
                        == owner@[j]->Some_0,
                final(whole)@ == Seq::new(
                    idx as nat,
                    |j: int|
                        if owner@[j] is Some {
                            InstanceData { data: Some(*final(out@[pos[j]].1)), next: st.data@[j].next }
                        } else {
                            st.data@[j]
                        },
                ) + final(rest)@,
                forall|p: int|
                    0 <= p < out@.len() ==> st.slots().contains_key((#[trigger] out@[p]).0) && st.slots()[out@[p].0]
                        < idx && *out@[p].1 == st.view()[out@[p].0] && pos[st.slots()[out@[p].0] as int] == p,
                forall|p: int, q: int|
                    0 <= p < q < out@.len() ==> st.slots()[(#[trigger] out@[p]).0] < st.slots()[(
                    #[trigger] out@[q]).0],
                forall|k: u64|
                    #[trigger] st.slots().contains_key(k) && st.slots()[k] < idx ==> exists|p: int|
                        0 <= p < out@.len() && (#[trigger] out@[p]).0 == k,
            decreases rest@.len(),
        {
            let ghost out0 = out@;
            let (head, tail) = rest.split_at_mut(1);
            let slot = &mut head[0];
            match owner[idx] {
                Some(k) => {
                    match &mut slot.data {
                        Some(v) => {
                            out.push((k, v));
                            proof {
                                pos = pos.push(out@.len() - 1);
                            }
                        },
                        None => {
                            proof {
                                pos = pos.push(0);
                            }
                        },
                    }
                },
                None => {
                    proof {
                        pos = pos.push(0);
                    }
                },
            }
            rest = tail;
            idx = idx + 1;
            proof {
                assert forall|k: u64| #[trigger] st.slots().contains_key(k) && st.slots()[k] < idx implies exists|
                    p: int,
                | 0 <= p < out@.len() && (#[trigger] out@[p]).0 == k by {
                    if st.slots()[k] == idx - 1 {
                        assert(out@[out@.len() - 1].0 == k);
                    } else {
                        let p = choose|p: int| 0 <= p < out0.len() && (#[trigger] out0[p]).0 == k;
                        assert(out@[p] == out0[p]);
                    }
                }
            }
        }
        proof {
            let ks = out@.map_values(|p: (u64, &mut T)| p.0);
            assert forall|k: u64| ks.to_set().contains(k) <==> st.view().contains_key(k) by {
                if ks.to_set().contains(k) {
                    let i = choose|i: int| 0 <= i < ks.len() && ks[i] == k;
                    assert(out@[i].0 == k);
                }
                if st.view().contains_key(k) {
                    assert(st.slots().contains_key(k));
                    let p = choose|p: int| 0 <= p < out@.len() && (#[trigger] out@[p]).0 == k;
                    assert(ks[p] == k);
                }
            }
            assert(ks.to_set() =~= st.view().dom());
        }
        out
    }
}

/// The ids of `all`, last first, are as many, as distinct and the same set as in order.
proof fn lemma_reversed_keys<T>(all: Seq<(u64, &mut T)>, dom: Set<u64>) -> (rk: Seq<u64>)
    requires
        all.map_values(|p: (u64, &mut T)| p.0).to_set() == dom,
        all.map_values(|p: (u64, &mut T)| p.0).no_duplicates(),
    ensures
        rk.len() == all.len(),
        rk.to_set() == dom,
        rk.no_duplicates(),
        forall|i: int| 0 <= i < rk.len() ==> #[trigger] rk[i] == all[all.len() - 1 - i].0,
{
    let n = all.len();
    let ks = all.map_values(|p: (u64, &mut T)| p.0);
    let rk = Seq::new(n, |i: int| ks[n - 1 - i]);
    assert forall|k: u64| rk.to_set().contains(k) <==> ks.to_set().contains(k) by {
        if rk.to_set().contains(k) {
            let i = choose|i: int| 0 <= i < rk.len() && rk[i] == k;
            assert(ks[n - 1 - i] == k);
        }
        if ks.to_set().contains(k) {
            let i = choose|i: int| 0 <= i < ks.len() && ks[i] == k;
            assert(rk[n - 1 - i] == k);
        }
    }
    assert(rk.to_set() =~= ks.to_set());
    assert forall|a: int, b: int| 0 <= a < b < rk.len() implies rk[a] != rk[b] by {
        assert(ks[n - 1 - a] != ks[n - 1 - b]);
    }
    rk
}

impl<T> InstanceManager<T> {
    /// Every value, to change in place while the manager is borrowed; one per id, in no
    /// stated order.
    pub fn values_mut(&mut self) -> (r: Vec<&mut T>)
        requires
            old(self).wf(),
        ensures
            final(self).wf(),
            final(self).view().dom() == old(self).view().dom(),
            exists|ks: Seq<u64>|
                {
                    &&& #[trigger] ks.to_set() == old(self).view().dom()
                    &&& ks.no_duplicates()
                    &&& r@.len() == ks.len()
                    &&& forall|i: int| 0 <= i < ks.len() ==> *r@[i] == old(self).view()[ks[i]]
                    &&& forall|i: int| 0 <= i < ks.len() ==> final(self).view()[ks[i]] == *final(r@[i])
                },
    {
        let mut pairs = self.iter_mut();
        let ghost all = pairs@;
        let ghost n = all.len();
        let mut out: Vec<&mut T> = Vec::new();
        while pairs.len() > 0
            invariant
                pairs@ == all.subrange(0, pairs@.len() as int),
                out@.len() + pairs@.len() == n,
                n == all.len(),
                forall|i: int|
                    0 <= i < out@.len() ==> *out@[i] == *all[n - 1 - i].1
                        && *final(out@[i]) == *final(all[n - 1 - i].1),
            decreases pairs@.len(),
        {
            let (_k, v) = pairs.pop().unwrap();
            out.push(v);
        }
        proof {
            let rk = lemma_reversed_keys(all, old(self).view().dom());
            assert(forall|i: int| 0 <= i < rk.len() ==> #[trigger] rk[i] == all[n - 1 - i].0);
        }
        out
    }
}

/// The value in the slot of `k`, when `k` has a slot inside the value vector.
pub open spec fn slot_value<T>(m: InstanceManager<T>, k: u64) -> Option<T> {
    if m.slots().contains_key(k) && m.slots()[k] < m.data@.len() {
        m.data@[m.slots()[k] as int].data
    } else {
        None
    }
}

/// `k` has a value in both managers, and the two values are equal by `T`'s `==`.
pub open spec fn same_value<T: PartialEq>(m: InstanceManager<T>, n: InstanceManager<T>, k: u64) -> bool {
    &&& slot_value(m, k) is Some
    &&& slot_value(n, k) is Some
    &&& slot_value(m, k)->Some_0.eq_spec(&slot_value(n, k)->Some_0)
}

impl<T> InstanceManager<T> {
    /// The value of `id`, looked up without relying on the manager being well formed.
    fn lookup(&self, id: u64) -> (r: Option<&T>)
        ensures
            r is Some <==> slot_value(*self, id) is Some,
            r is Some ==> *r->Some_0 == slot_value(*self, id)->Some_0,
    {
        match map_get(&self.instances, id) {
            None => None,
            Some(index) => {
                if index < self.data.len() {
                    match &self.data[index].data {
                        Some(v) => Some(v),
                        None => None,
                    }
                } else {
                    None
                }
            },
        }
    }
}

impl<T: PartialEq> PartialEq for InstanceManager<T> {
    fn eq(&self, other: &Self) -> (r: bool) {
        if map_len(&self.instances) != map_len(&other.instances) {
            return false;
        }
        let keys = map_keys(&self.instances);
        let mut i: usize = 0;
        while i < keys.len()
            invariant
                keys@.to_set() == self.slots().dom(),
                i <= keys@.len(),
                T::obeys_eq_spec() ==> forall|m: int| 0 <= m < i ==> same_value(*self, *other, #[trigger] keys@[m]),
            decreases keys@.len() - i,
        {
            let k = keys[i];
            proof {
                assert(keys@.to_set().contains(k));
            }
            match self.lookup(k) {
                Some(a) => match other.lookup(k) {
                    Some(b) => {
                        if !a.eq(b) {
                            return false;
                        }
                    },
                    None => {
                        return false;
                    },
                },
                None => {
                    return false;
                },
            }
            i = i + 1;
        }
        proof {
            if T::obeys_eq_spec() {
                assert forall|k: u64| #[trigger] self.slots().contains_key(k) implies same_value(*self, *other, k) by {
                    assert(keys@.to_set().contains(k));
                    let m = choose|m: int| 0 <= m < keys@.len() && keys@[m] == k;
                    assert(same_value(*self, *other, keys@[m]));
                }
            }
        }
        true
    }
}

impl<T: PartialEq> vstd::std_specs::cmp::PartialEqSpecImpl for InstanceManager<T> {
    open spec fn obeys_eq_spec() -> bool {
        T::obeys_eq_spec()
    }

    open spec fn eq_spec(&self, other: &InstanceManager<T>) -> bool {
        &&& self.slots().len() == other.slots().len()
        &&& forall|k: u64| #[trigger] self.slots().contains_key(k) ==> same_value(*self, *other, k)
    }
}

/// Two well-formed managers are equal by `==` exactly when they hold values for the
/// same ids and, id by id, values that are equal by `T`'s `==`.
pub proof fn lemma_eq_by_values<T: PartialEq>(m: InstanceManager<T>, n: InstanceManager<T>)
    requires
        m.wf(),
        n.wf(),
    ensures
        m.eq_spec(&n) <==> m.view().dom() == n.view().dom() && forall|k: u64|
            #[trigger] m.view().contains_key(k) ==> m.view()[k].eq_spec(&n.view()[k]),
{
    assert(m.view().dom() =~= m.slots().dom());
    assert(n.view().dom() =~= n.slots().dom());
    if m.eq_spec(&n) {
        assert(m.slots().dom().subset_of(n.slots().dom())) by {
            assert forall|k: u64| m.slots().contains_key(k) implies n.slots().contains_key(k) by {
                assert(same_value(m, n, k));
            }
        }
        vstd::set_lib::lemma_subset_equality(m.slots().dom(), n.slots().dom());
        assert forall|k: u64| #[trigger] m.view().contains_key(k) implies m.view()[k].eq_spec(&n.view()[k]) by {
            assert(same_value(m, n, k));
        }
    }
    if m.view().dom() == n.view().dom() && forall|k: u64|
        #[trigger] m.view().contains_key(k) ==> m.view()[k].eq_spec(&n.view()[k]) {
        assert forall|k: u64| #[trigger] m.slots().contains_key(k) implies same_value(m, n, k) by {
            assert(m.view().contains_key(k));
        }
    }
}

/// Removing the keys of the first `j` ids and then id `j` removes the keys of the first
/// `j + 1` ids.
proof fn lemma_remove_one_more<V>(start: Map<u64, V>, ids: Seq<u64>, j: int)
    requires
        0 <= j < ids.len(),
    ensures
        start.remove_keys(ids.subrange(0, j).to_set()).remove(ids[j]) == start.remove_keys(
            ids.subrange(0, j + 1).to_set(),
        ),
{
    assert(ids.subrange(0, j + 1) =~= ids.subrange(0, j).push(ids[j]));
    ids.subrange(0, j).lemma_push_to_set_commute(ids[j]);
    assert(start.remove_keys(ids.subrange(0, j).to_set()).remove(ids[j]) =~= start.remove_keys(
        ids.subrange(0, j + 1).to_set(),
    ));
}

/// Puts `x` in slot `i` and gives back what was there.
fn vec_replace<X>(v: &mut Vec<X>, i: usize, x: X) -> (r: X)
    requires
        i < old(v)@.len(),
    ensures
        r == old(v)@[i as int],
        final(v)@ == old(v)@.update(i as int, x),
{
    let mut out = x;
    let slot = &mut v[i];
    core::mem::swap(slot, &mut out);
    out
}

/// Makes room for `additional` more slots, through `Vec::reserve`.
#[verifier::external_body]
fn vec_reserve<X>(v: &mut Vec<X>, additional: usize)
    ensures
        final(v)@ == old(v)@,
{
    v.reserve(additional)
}

/// Gives back unused room, through `Vec::shrink_to_fit`.
#[verifier::external_body]
fn vec_shrink_to_fit<X>(v: &mut Vec<X>)
    ensures
        final(v)@ == old(v)@,
{
    v.shrink_to_fit()
}

} // verus!
