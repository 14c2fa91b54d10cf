//! A sparse, generational map keyed by [`Key`].
//!
//! `SparseMap` provides stable keys with versioning to prevent
//! use-after-free bugs. Internally it reuses vacant slots while incrementing
//! a generation counter to invalidate stale keys. Insertion, removal and
//! lookup are all O(1).

use vstd::pervasive::VecAdditionalExecFns;
use vstd::prelude::*;

verus! {

/// A generational handle into a [`SparseMap`]: a slot index paired with the
/// generation the slot had when the handle was issued.
#[derive(Debug, Clone, Copy, Hash, PartialEq, Eq, PartialOrd, Ord, Structural)]
pub struct Key {
    pub index: usize,
    pub version: u32,
}

impl Key {
    pub(crate) fn new(index: usize, version: u32) -> (r: Self)
        ensures
            r == (Key { index, version }),
    {
        Key { index, version }
    }

    /// The slot index.
    pub fn index(&self) -> (r: usize)
        ensures
            r == self.index,
    {
        self.index
    }

    /// The generation.
    pub fn version(&self) -> (r: u32)
        ensures
            r == self.version,
    {
        self.version
    }

    /// The slot index, for contracts.
    pub open spec fn spec_index(self) -> usize {
        self.index
    }

    /// The generation, for contracts.
    pub open spec fn spec_version(self) -> u32 {
        self.version
    }
}

/// A generation counter incremented with wraparound.
pub open spec fn wrap_inc(v: u32) -> u32 {
    if v == u32::MAX {
        0
    } else {
        (v + 1) as u32
    }
}

/// A wrapped increment never returns its argument.
pub proof fn lemma_wrap_inc_changes(v: u32)
    ensures
        wrap_inc(v) != v,
{
}

/// A versioned item holder used by [`SparseMap`].
struct Item<T> {
    inner: Option<T>,
    version: u32,
}

impl<T> Item<T> {
    fn new(value: T) -> (r: Self)
        ensures
            r.inner == Some(value),
            r.version == 0,
    {
        Item { inner: Some(value), version: 0 }
    }

    fn new_empty() -> (r: Self)
        ensures
            r.inner is None,
            r.version == 0,
    {
        Item { inner: None, version: 0 }
    }

    fn take(&mut self) -> (r: Option<T>)
        ensures
            r == old(self).inner,
            final (self).inner is None,
            final (self).version == old(self).version,
    {
        self.inner.take()
    }

    fn replace(&mut self, value: T) -> (r: u32)
        ensures
            final (self).inner == Some(value),
            final (self).version == wrap_inc(old(self).version),
            r == final (self).version,
    {
        self.inner = Some(value);
        self.version = self.version.wrapping_add(1);
        self.version
    }

    fn replace_empty(&mut self) -> (r: u32)
        ensures
            final (self).inner is None,
            final (self).version == wrap_inc(old(self).version),
            r == final (self).version,
    {
        self.inner = None;
        self.version = self.version.wrapping_add(1);
        self.version
    }
}

/// A sparse, generational map: a growable buffer of versioned slots plus a
/// free list of vacant slot indices.
pub struct SparseMap<T> {
    buffer: Vec<Item<T>>,
    empty_slots: Vec<usize>,
}

impl<T> SparseMap<T> {
    /// The number of slots ever allocated (live and vacant together).
    pub closed spec fn slot_count(self) -> int {
        self.buffer@.len() as int
    }

    /// The generation currently stored at a slot.
    pub closed spec fn version_of(self, i: int) -> u32 {
        self.buffer@[i].version
    }

    /// The value currently stored at a slot, if any.
    pub closed spec fn value_of(self, i: int) -> Option<T> {
        self.buffer@[i].inner
    }

    /// The free list, oldest entry first.
    pub closed spec fn free_list(self) -> Seq<usize> {
        self.empty_slots@
    }

    /// The whole slot array as `(generation, stored value)` pairs: together
    /// with the free list this determines the map completely.
    pub closed spec fn slots_model(self) -> Seq<(u32, Option<T>)> {
        self.buffer@.map_values(|it: Item<T>| (it.version, it.inner))
    }

    /// How the slot model relates to the per-slot observers.
    pub proof fn lemma_slots_model(self)
        ensures
            self.slots_model().len() == self.slot_count(),
            forall|i: int|
                0 <= i < self.slot_count() ==> #[trigger] self.slots_model()[i] == (
                self.version_of(i),
                self.value_of(i),
            ),
    {
    }

    /// A key is live when its slot holds a value under the key's generation.
    pub open spec fn spec_live(self, key: Key) -> bool {
        key.spec_index() < self.slot_count() && self.version_of(key.spec_index() as int)
            == key.spec_version() && self.value_of(key.spec_index() as int) is Some
    }

    /// The value a live key refers to.
    pub open spec fn spec_get(self, key: Key) -> T
        recommends
            self.spec_live(key),
    {
        self.value_of(key.spec_index() as int)->Some_0
    }

    /// The map's internal consistency: the free list holds exactly the
    /// vacant slots, each once.
    pub open spec fn wf(self) -> bool {
        &&& forall|j: int|
            0 <= j < self.free_list().len() ==> 0 <= #[trigger] self.free_list()[j]
                < self.slot_count() && self.value_of(self.free_list()[j] as int) is None
        &&& forall|i: int|
            0 <= i < self.slot_count() && self.value_of(i) is None ==> self.free_list().contains(
                i as usize,
            )
        &&& self.free_list().no_duplicates()
    }

    /// The number of live entries.
    pub open spec fn spec_len(self) -> int {
        self.slot_count() - self.free_list().len()
    }

    /// Creates a new empty sparse map.
    pub fn new() -> (r: Self)
        ensures
            r.wf(),
            r.slot_count() == 0,
            r.free_list() =~= Seq::<usize>::empty(),
            forall|k: Key| !r.spec_live(k),
    {
        SparseMap { buffer: Vec::new(), empty_slots: Vec::new() }
    }

    /// Inserts a value and returns a unique [`Key`] for it.
    ///
    /// Vacant slots are reused when possible; a reused slot has its
    /// generation incremented, which invalidates all keys issued for it
    /// before.
    pub fn insert(&mut self, value: T) -> (key: Key)
        requires
            old(self).wf(),
            old(self).slot_count() < usize::MAX,
        ensures
            final (self).wf(),
            final (self).spec_live(key),
            final (self).spec_get(key) == value,
            final (self).spec_len() == old(self).spec_len() + 1,
            // Where the key went: the last free slot, or a fresh one.
            if old(self).free_list().len() > 0 {
                key.spec_index() == old(self).free_list().last() && final (self).free_list()
                    == old(self).free_list().drop_last() && final (self).slot_count() == old(self).slot_count() && key.spec_version() == wrap_inc(
                    old(self).version_of(key.spec_index() as int),
                )
            } else {
                key.spec_index() == old(self).slot_count() && final (self).slot_count() == old(self).slot_count() + 1 && final (self).free_list() == old(self).free_list()
                    && key.spec_version() == 0
            },
            // Every other slot is untouched, and keys into them keep their
            // liveness and value.
            forall|i: int|
                0 <= i < old(self).slot_count() && i != key.spec_index() ==> #[trigger] final(self).version_of(i) == old(self).version_of(i) && final (self).value_of(i) == old(self).value_of(i),
            forall|k2: Key|
                k2.spec_index() != key.spec_index() ==> (#[trigger] final (self).spec_live(k2)
                    == old(self).spec_live(k2)) && (old(self).spec_live(k2) ==> final (
                self).spec_get(k2) == old(self).spec_get(k2)),
            // Stale keys into the chosen slot are invalid.
            forall|k2: Key|
                k2.spec_index() == key.spec_index() && k2.spec_version() != key.spec_version()
                    ==> !#[trigger] final (self).spec_live(k2),
    {
        match self.empty_slots.pop() {
            Some(index) => {
                let ghost old_free = self.empty_slots@.push(index);
                let version = self.buffer[index].version;
                let item: Item<T> = Item { inner: Some(value), version: version.wrapping_add(1) };
                self.buffer.set(index, item);
                proof {
                    assert(old(self).free_list().last() == index);
                    assert(self.empty_slots@ =~= old(self).free_list().drop_last());
                    assert forall|i: int|
                        0 <= i < self.slot_count() && self.value_of(i) is None implies self.free_list().contains(
                        i as usize,
                    ) by {
                        assert(old(self).value_of(i) is None);
                        assert(old(self).free_list().contains(i as usize));
                        let j = choose|j: int|
                            0 <= j < old(self).free_list().len() && old(self).free_list()[j] == i;
                        assert(j != old(self).free_list().len() - 1);
                        assert(self.free_list()[j] == i);
                    }
                }
                Key::new(index, version.wrapping_add(1))
            },
            None => {
                let index = self.buffer.len();
                let item: Item<T> = Item { inner: Some(value), version: 0 };
                self.buffer.push(item);
                proof {
                    assert forall|i: int|
                        0 <= i < self.slot_count() && self.value_of(i) is None implies self.free_list().contains(
                        i as usize,
                    ) by {
                        assert(i < old(self).slot_count());
                        assert(old(self).value_of(i) is None);
                        assert(old(self).free_list().contains(i as usize));
                    }
                }
                Key::new(index, 0)
            },
        }
    }

    /// Allocates a slot and hands its [`Key`] to `f` before the value is
    /// stored: `f` sees the map with the slot still reserved-empty and may
    /// mutate the rest of the map (for example to record the key in sibling
    /// entries). The value `f` returns is then written into the reserved
    /// slot.
    pub fn insert_with_key<F: FnOnce(&mut Self, Key) -> T>(&mut self, f: F) -> (key: Key)
        requires
            old(self).wf(),
            old(self).slot_count() < usize::MAX,
            forall|m: &mut Self, k2: Key| #[trigger] call_requires(f, (m, k2)),
            forall|m: &mut Self, k2: Key, val: T|
                #[trigger] call_ensures(f, (m, k2), val) ==> mut_ref_future(m).slot_count()
                    >= mut_ref_current(m).slot_count() && mut_ref_future(m).version_of(
                    k2.spec_index() as int,
                ) == mut_ref_current(m).version_of(k2.spec_index() as int),
        ensures
            // The same slot choice as `insert`.
            if old(self).free_list().len() > 0 {
                key.spec_index() == old(self).free_list().last() && key.spec_version() == wrap_inc(
                    old(self).version_of(key.spec_index() as int),
                )
            } else {
                key.spec_index() == old(self).slot_count() && key.spec_version() == 0
            },
            final (self).spec_live(key),
            // What the closure saw, and what its result became: the value it
            // returned now sits under the new key.
            exists|m: &mut Self|
                {
                    &&& #[trigger] call_ensures(f, (m, key), final (self).spec_get(key))
                    &&& !mut_ref_current(m).spec_live(key)
                    &&& (old(self).free_list().len() > 0 ==> mut_ref_current(m).free_list() == old(
                        self,
                    ).free_list().drop_last() && mut_ref_current(m).slots_model() == old(
                        self,
                    ).slots_model().update(
                        key.spec_index() as int,
                        (key.spec_version(), Option::<T>::None),
                    ))
                    &&& (old(self).free_list().len() == 0 ==> mut_ref_current(m).free_list() == old(
                        self,
                    ).free_list() && mut_ref_current(m).slots_model() == old(
                        self,
                    ).slots_model().push((key.spec_version(), Option::<T>::None)))
                    &&& key.spec_index() < mut_ref_future(m).slots_model().len()
                    &&& final (self).free_list() == mut_ref_future(m).free_list()
                    &&& final (self).slots_model() == mut_ref_future(m).slots_model().update(
                        key.spec_index() as int,
                        (key.spec_version(), Some(final (self).spec_get(key))),
                    )
                },
    {
        let key = match self.empty_slots.pop() {
            Some(index) => {
                let version = self.buffer[index].version;
                let item: Item<T> = Item { inner: None, version: version.wrapping_add(1) };
                self.buffer.set(index, item);
                Key::new(index, version.wrapping_add(1))
            },
            None => {
                let index = self.buffer.len();
                let item: Item<T> = Item { inner: None, version: 0 };
                self.buffer.push(item);
                Key::new(index, 0)
            },
        };
        proof {
            old(self).lemma_slots_model();
            self.lemma_slots_model();
            if old(self).free_list().len() > 0 {
                assert(self.slots_model() =~= old(self).slots_model().update(
                    key.spec_index() as int,
                    (key.spec_version(), Option::<T>::None),
                ));
                assert(self.free_list() =~= old(self).free_list().drop_last());
            } else {
                assert(self.slots_model() =~= old(self).slots_model().push((
                    key.spec_version(),
                    Option::<T>::None,
                )));
            }
        }
        let value = f(self, key);
        let ghost prev = *self;
        let ghost gi = key.spec_index() as int;
        let ghost gval = value;
        proof {
            prev.lemma_slots_model();
            assert(prev.version_of(gi) == key.spec_version());
        }
        self.put_value(&key, value);
        proof {
            self.lemma_slots_model();
            assert(self.spec_get(key) == gval);
            assert(exists|m: &mut Self|
                {
                    &&& #[trigger] call_ensures(f, (m, key), gval)
                    &&& !mut_ref_current(m).spec_live(key)
                    &&& (old(self).free_list().len() > 0 ==> mut_ref_current(m).free_list() == old(
                        self,
                    ).free_list().drop_last() && mut_ref_current(m).slots_model() == old(
                        self,
                    ).slots_model().update(gi, (key.spec_version(), Option::<T>::None)))
                    &&& (old(self).free_list().len() == 0 ==> mut_ref_current(m).free_list() == old(
                        self,
                    ).free_list() && mut_ref_current(m).slots_model() == old(
                        self,
                    ).slots_model().push((key.spec_version(), Option::<T>::None)))
                    &&& key.spec_index() < mut_ref_future(m).slots_model().len()
                    &&& self.free_list() == mut_ref_future(m).free_list()
                    &&& self.slots_model() == mut_ref_future(m).slots_model().update(
                        gi,
                        (key.spec_version(), Some(gval)),
                    )
                });
        }
        key
    }

    /// Removes the value at the key's slot, if the slot exists.
    ///
    /// The slot index is pushed onto the free list whenever it is in range,
    /// even when the slot was already vacant; the generation is not
    /// consulted.
    pub fn remove(&mut self, key: &Key) -> (r: Option<T>)
        ensures
            key.spec_index() >= old(self).slot_count() ==> r is None && *final (self) == *old(self),
            key.spec_index() < old(self).slot_count() ==> {
                &&& r == old(self).value_of(key.spec_index() as int)
                &&& final (self).slot_count() == old(self).slot_count()
                &&& final (self).free_list() == old(self).free_list().push(key.spec_index())
                &&& final (self).value_of(key.spec_index() as int) is None
                &&& final (self).version_of(key.spec_index() as int) == old(self).version_of(
                    key.spec_index() as int,
                )
                &&& forall|i: int|
                    0 <= i < old(self).slot_count() && i != key.spec_index() ==> #[trigger] final(self).version_of(i) == old(self).version_of(i) && final (self).value_of(i) == old(self).value_of(i)
            },
            !final (self).spec_live(*key),
            forall|k2: Key|
                k2.spec_index() != key.spec_index() ==> (#[trigger] final (self).spec_live(k2)
                    == old(self).spec_live(k2)) && (old(self).spec_live(k2) ==> final (
                self).spec_get(k2) == old(self).spec_get(k2)),
            old(self).wf() && old(self).value_of(key.spec_index() as int) is Some ==> final (
            self).wf(),
    {
        if key.index >= self.buffer.len() {
            return None;
        }
        let index = key.index;
        self.empty_slots.push(index);
        let version = self.buffer[index].version;
        let mut tmp: Item<T> = Item { inner: None, version };
        self.buffer.set_and_swap(index, &mut tmp);
        proof {
            if old(self).wf() && old(self).value_of(index as int) is Some {
                let of = old(self).free_list();
                let nf = self.free_list();
                assert(nf =~= of.push(index));
                assert(!of.contains(index)) by {
                    if of.contains(index) {
                        let j = choose|j: int| 0 <= j < of.len() && of[j] == index;
                        assert(old(self).value_of(of[j] as int) is None);
                    }
                }
                assert forall|j: int| 0 <= j < nf.len() implies 0 <= #[trigger] nf[j]
                    < self.slot_count() && self.value_of(nf[j] as int) is None by {
                    if j < of.len() {
                        assert(nf[j] == of[j]);
                        assert(old(self).value_of(of[j] as int) is None);
                        assert(of[j] != index);
                    } else {
                        assert(nf[j] == index);
                    }
                }
                assert forall|i: int|
                    0 <= i < self.slot_count() && self.value_of(i) is None implies nf.contains(
                    i as usize,
                ) by {
                    if i == index {
                        assert(nf[nf.len() - 1] == index);
                    } else {
                        assert(old(self).value_of(i) is None);
                        let j = choose|j: int| 0 <= j < of.len() && of[j] == i as usize;
                        assert(nf[j] == i as usize);
                    }
                }
                assert forall|i1: int, j1: int|
                    0 <= i1 < nf.len() && 0 <= j1 < nf.len() && i1 != j1 implies nf[i1]
                    != nf[j1] by {
                    if i1 < of.len() && j1 < of.len() {
                        assert(of[i1] != of[j1]);
                    } else if i1 < of.len() {
                        assert(nf[j1] == index && of[i1] != index);
                    } else {
                        assert(nf[i1] == index && of[j1] != index);
                    }
                }
                assert(nf.no_duplicates());
            }
        }
        tmp.inner
    }

    /// Returns the value for the key, if the key is live.
    pub fn get(&self, key: &Key) -> (r: Option<&T>)
        ensures
            match r {
                Some(v) => self.spec_live(*key) && *v == self.spec_get(*key),
                None => !self.spec_live(*key),
            },
    {
        match self.buffer.get(key.index) {
            Some(item) => {
                if item.version == key.version {
                    item.inner.as_ref()
                } else {
                    None
                }
            },
            None => None,
        }
    }

    /// Returns a mutable reference to the value for the key, if the key is
    /// live.
    pub fn get_mut(&mut self, key: &Key) -> (r: Option<&mut T>)
        ensures
            r is None ==> !old(self).spec_live(*key) && *final (self) == *old(self),
            r is Some ==> {
                &&& old(self).spec_live(*key)
                &&& *r->Some_0 == old(self).spec_get(*key)
                &&& final (self).slot_count() == old(self).slot_count()
                &&& final (self).free_list() == old(self).free_list()
                &&& final (self).version_of(key.spec_index() as int) == key.spec_version()
                &&& final (self).value_of(key.spec_index() as int) == Some(*final (r->Some_0))
                &&& forall|i: int|
                    0 <= i < old(self).slot_count() && i != key.spec_index()
                        ==> #[trigger] final (self).version_of(i) == old(self).version_of(i)
                        && final (self).value_of(i) == old(self).value_of(i)
            },
    {
        if key.index >= self.buffer.len() {
            return None;
        }
        if self.buffer[key.index].version != key.version {
            return None;
        }
        if self.buffer[key.index].inner.is_none() {
            return None;
        }
        let item = &mut self.buffer[key.index];
        item.inner.as_mut()
    }

    /// Takes the value out of a live key's slot, leaving the slot
    /// reserved-empty: its generation is kept and it is not offered for
    /// reuse.
    pub(crate) fn take_value(&mut self, key: &Key) -> (r: Option<T>)
        ensures
            r is None ==> !old(self).spec_live(*key) && *final (self) == *old(self),
            r is Some ==> {
                &&& old(self).spec_live(*key)
                &&& r == Some(old(self).spec_get(*key))
                &&& final (self).slot_count() == old(self).slot_count()
                &&& final (self).free_list() == old(self).free_list()
                &&& final (self).version_of(key.spec_index() as int) == key.spec_version()
                &&& final (self).value_of(key.spec_index() as int) is None
                &&& final (self).slots_model() == old(self).slots_model().update(
                    key.spec_index() as int,
                    (key.spec_version(), Option::<T>::None),
                )
                &&& forall|i: int|
                    0 <= i < old(self).slot_count() && i != key.spec_index()
                        ==> #[trigger] final (self).version_of(i) == old(self).version_of(i)
                        && final (self).value_of(i) == old(self).value_of(i)
            },
    {
        if key.index >= self.buffer.len() {
            return None;
        }
        if self.buffer[key.index].version != key.version {
            return None;
        }
        if self.buffer[key.index].inner.is_none() {
            return None;
        }
        let version = key.version;
        let mut tmp: Item<T> = Item { inner: None, version };
        self.buffer.set_and_swap(key.index, &mut tmp);
        proof {
            assert(self.slots_model() =~= old(self).slots_model().update(
                key.spec_index() as int,
                (key.spec_version(), Option::<T>::None),
            ));
        }
        tmp.inner
    }

    /// Restores a value into a slot previously emptied by `take_value`,
    /// keeping the slot's generation.
    pub(crate) fn put_value(&mut self, key: &Key, value: T)
        requires
            key.spec_index() < old(self).slot_count(),
        ensures
            final (self).slot_count() == old(self).slot_count(),
            final (self).free_list() == old(self).free_list(),
            final (self).version_of(key.spec_index() as int) == old(self).version_of(
                key.spec_index() as int,
            ),
            final (self).value_of(key.spec_index() as int) == Some(value),
            final (self).slots_model() == old(self).slots_model().update(
                key.spec_index() as int,
                (old(self).version_of(key.spec_index() as int), Some(value)),
            ),
            forall|i: int|
                0 <= i < old(self).slot_count() && i != key.spec_index() ==> #[trigger] final(self).version_of(i) == old(self).version_of(i) && final (self).value_of(i) == old(self).value_of(i),
    {
        let version = self.buffer[key.index].version;
        let item: Item<T> = Item { inner: Some(value), version };
        self.buffer.set(key.index, item);
        proof {
            assert(self.slots_model() =~= old(self).slots_model().update(
                key.spec_index() as int,
                (old(self).version_of(key.spec_index() as int), Some(value)),
            ));
        }
    }

    /// Temporarily removes the value behind a live key, hands it to `f`
    /// together with the rest of the map, then reinserts the value `f`
    /// returns into the same slot with the slot's generation unchanged.
    /// Returns `None`, without invoking `f`, when the key is not live.
    ///
    /// While `f` runs, the slot is reserved-empty: still allocated, not
    /// offered for reuse, holding no value.
    pub fn scope<F: FnOnce(Self, T) -> (Self, T, R), R>(&mut self, key: &Key, f: F) -> (r: Option<
        R,
    >)
        requires
            forall|m: SparseMap<T>, v: T| #[trigger] call_requires(f, (m, v)),
            forall|m: SparseMap<T>, v: T, out: (SparseMap<T>, T, R)|
                #[trigger] call_ensures(f, (m, v), out) ==> out.0.slot_count() >= m.slot_count(),
        ensures
            r is None ==> !old(self).spec_live(*key) && *final (self) == *old(self),
            r is Some ==> old(self).spec_live(*key),
            // `f` saw the map with the entry taken out together with the
            // entry's value; afterwards the map is the one `f` returned,
            // with the value `f` returned put back into the slot under the
            // slot's kept generation.
            r is Some ==> exists|m1: SparseMap<T>, m2: SparseMap<T>, v2: T, rr: R|
                {
                    &&& #[trigger] call_ensures(f, (m1, old(self).spec_get(*key)), (m2, v2, rr))
                    &&& r == Some(rr)
                    &&& m1.free_list() == old(self).free_list()
                    &&& m1.slots_model() == old(self).slots_model().update(
                        key.spec_index() as int,
                        (key.spec_version(), Option::<T>::None),
                    )
                    &&& key.spec_index() < m2.slots_model().len()
                    &&& final (self).free_list() == m2.free_list()
                    &&& final (self).slots_model() == m2.slots_model().update(
                        key.spec_index() as int,
                        (m2.slots_model()[key.spec_index() as int].0, Some(v2)),
                    )
                    &&& final (self).value_of(key.spec_index() as int) == Some(v2)
                },
    {
        let taken = self.take_value(key);
        match taken {
            Some(value) => {
                let mut tmp: SparseMap<T> = SparseMap { buffer: Vec::new(), empty_slots: Vec::new() };
                core::mem::swap(&mut tmp, self);
                let ghost gm1 = tmp;
                let (m2, value2, result) = f(tmp, value);
                let ghost gm2 = m2;
                let ghost gv2 = value2;
                let ghost gres = result;
                *self = m2;
                proof {
                    self.lemma_slots_model();
                }
                self.put_value(key, value2);
                proof {
                    assert(call_ensures(f, (gm1, old(self).spec_get(*key)), (gm2, gv2, gres)));
                    assert(exists|m1: SparseMap<T>, m2x: SparseMap<T>, v2: T|
                        {
                            &&& #[trigger] call_ensures(
                                f,
                                (m1, old(self).spec_get(*key)),
                                (m2x, v2, gres),
                            )
                            &&& m1.free_list() == old(self).free_list()
                            &&& m1.slots_model() == old(self).slots_model().update(
                                key.spec_index() as int,
                                (key.spec_version(), Option::<T>::None),
                            )
                            &&& key.spec_index() < m2x.slots_model().len()
                            &&& self.free_list() == m2x.free_list()
                            &&& self.slots_model() == m2x.slots_model().update(
                                key.spec_index() as int,
                                (m2x.slots_model()[key.spec_index() as int].0, Some(v2)),
                            )
                            &&& self.value_of(key.spec_index() as int) == Some(v2)
                        });
                }
                Some(result)
            },
            None => None,
        }
    }

    pub fn contains(&self, key: &Key) -> (r: bool)
        ensures
            r == self.spec_live(*key),
    {
        match self.buffer.get(key.index) {
            Some(item) => item.inner.is_some() && item.version == key.version,
            None => false,
        }
    }

    /// The number of live entries.
    pub fn len(&self) -> (r: usize)
        requires
            self.wf(),
        ensures
            r == self.spec_len(),
    {
        let total = self.buffer.len();
        proof {
            self.free_list().unique_seq_to_set();
            lemma_index_set_le(self.free_list(), self.slot_count());
        }
        total - self.empty_slots.len()
    }

    /// Whether the map holds no live entry.
    pub fn is_empty(&self) -> (r: bool)
        requires
            self.wf(),
        ensures
            r == (self.spec_len() == 0),
    {
        self.len() == 0
    }
}

/// The slot array of any map fits in a vector.
pub proof fn lemma_slot_count_bound<T>(m: &SparseMap<T>)
    ensures
        m.slot_count() <= usize::MAX,
{
    vstd::std_specs::vec::axiom_spec_len(&m.buffer);
}

/// A well-formed map holds a nonnegative number of live entries.
pub proof fn lemma_len_nonneg<T>(m: &SparseMap<T>)
    requires
        m.wf(),
    ensures
        m.spec_len() >= 0,
{
    lemma_slot_count_bound(m);
    m.free_list().unique_seq_to_set();
    lemma_index_set_le(m.free_list(), m.slot_count());
}

/// Two maps of the same shape (same slots, same free list, values present
/// in the same slots) are equally well-formed; the stored values and
/// generations do not matter to well-formedness.
pub proof fn lemma_wf_same_shape<T>(a: SparseMap<T>, b: SparseMap<T>)
    requires
        a.wf(),
        b.slot_count() == a.slot_count(),
        b.free_list() == a.free_list(),
        forall|i: int|
            0 <= i < a.slot_count() ==> (#[trigger] b.value_of(i) is Some <==> a.value_of(
                i,
            ) is Some),
    ensures
        b.wf(),
{
    assert forall|j: int| 0 <= j < b.free_list().len() implies 0 <= #[trigger] b.free_list()[j]
        < b.slot_count() && b.value_of(b.free_list()[j] as int) is None by {
        assert(a.value_of(a.free_list()[j] as int) is None);
    }
    assert forall|i: int|
        0 <= i < b.slot_count() && b.value_of(i) is None implies b.free_list().contains(
        i as usize,
    ) by {
        assert(a.value_of(i) is None);
    }
}

/// A duplicate-free sequence of indices below `n` has at most `n` entries.
pub(crate) proof fn lemma_index_set_le(s: Seq<usize>, n: int)
    requires
        s.no_duplicates(),
        forall|j: int| 0 <= j < s.len() ==> 0 <= #[trigger] s[j] < n,
        0 <= n <= usize::MAX + 1,
    ensures
        s.len() <= n,
    decreases n,
{
    if s.len() > n {
        let bound = Set::new(|u: usize| 0 <= u < n);
        s.unique_seq_to_set();
        assert(s.to_set().subset_of(bound));
        lemma_usize_range_card(n);
        vstd::set_lib::lemma_len_subset(s.to_set(), bound);
    }
}

/// The set of usize values below `n` has `n` elements.
proof fn lemma_usize_range_card(n: int)
    requires
        0 <= n <= usize::MAX + 1,
    ensures
        Set::new(|u: usize| 0 <= u < n).finite(),
        Set::new(|u: usize| 0 <= u < n).len() == n,
    decreases n,
{
    let s = Set::new(|u: usize| 0 <= u < n);
    if n == 0 {
        assert(s =~= Set::<usize>::empty());
    } else {
        let prev = Set::new(|u: usize| 0 <= u < n - 1);
        lemma_usize_range_card(n - 1);
        assert(s =~= prev.insert((n - 1) as usize));
    }
}

} // verus!
