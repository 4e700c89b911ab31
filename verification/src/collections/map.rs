//! A key-value table of fixed capacity: open addressing with linear probing.

use crate::error::Error;
use crate::string::{formatted, sformat};
use crate::ERROR_LEN;
use vstd::laws_eq::obeys_concrete_eq;
use vstd::prelude::*;
use vstd::string::StringSliceAdditionalSpecFns;
use vstd::utf8::is_ascii_chars_encode_utf8;

verus! {

/// One cell of a table.
pub enum Slot<K, V> {
    Empty,
    Occupied(K, V),
}

/// Slot `i` of `slots` is occupied by `key`.
pub open spec fn holds<K, V>(slots: Seq<Slot<K, V>>, i: int, key: K) -> bool {
    &&& 0 <= i < slots.len()
    &&& slots[i] matches Slot::Occupied(k, _)
    &&& k == key
}

/// The slot at which the probe for a key with hash `hash` starts.
pub open spec fn home(hash: usize, cap: int) -> int {
    hash as int % cap
}

/// The slot that a probe from `start` examines at step `n`:
/// `(start + n) mod cap`, for `start < cap` and `n <= cap`.
pub open spec fn probe(start: int, n: int, cap: int) -> int {
    if start + n < cap {
        start + n
    } else {
        start + n - cap
    }
}

/// The step at which a probe from `start` examines slot `i`.
pub open spec fn distance(start: int, i: int, cap: int) -> int {
    if i >= start {
        i - start
    } else {
        i + cap - start
    }
}

/// The slot that the probe for `key` examines at step `n`.
pub open spec fn probe_slot<K: crate::hash::Hash, V>(
    slots: Seq<Slot<K, V>>,
    key: K,
    n: int,
) -> int {
    probe(home(key.hash_spec(), slots.len() as int), n, slots.len() as int)
}

/// The probe for `key` goes on past `slot`: another key occupies it.
pub open spec fn passes<K, V>(slot: Slot<K, V>, key: K) -> bool {
    slot matches Slot::Occupied(k, _) && k != key
}

/// The step at which the probe for `key` stops, counted from step `n` on:
/// the first step whose slot is empty or holds `key`, and the capacity
/// where every slot is examined in vain.
pub open spec fn probe_stop<K: crate::hash::Hash, V>(slots: Seq<Slot<K, V>>, key: K, n: int) -> int
    decreases slots.len() - n,
{
    if 0 <= n < slots.len() && passes(slots[probe_slot(slots, key, n)], key) {
        probe_stop(slots, key, n + 1)
    } else {
        n
    }
}

/// No key occupies two slots.
pub open spec fn unique_keys<K, V>(slots: Seq<Slot<K, V>>) -> bool {
    forall|i: int, j: int, k: K| holds(slots, i, k) && holds(slots, j, k) ==> i == j
}

/// Step `n` of the probe for the key in slot `i` comes before that probe
/// reaches slot `i`.
pub open spec fn on_path<K: crate::hash::Hash, V>(slots: Seq<Slot<K, V>>, i: int, n: int) -> bool {
    &&& 0 <= i < slots.len()
    &&& slots[i] is Occupied
    &&& 0 <= n < distance(
        home(slots[i]->0.hash_spec(), slots.len() as int),
        i,
        slots.len() as int,
    )
}

/// Every slot between the home of a key and the slot the key is in is
/// occupied, so that a probe for the key does not stop short of it.
pub open spec fn paths_occupied<K: crate::hash::Hash, V>(slots: Seq<Slot<K, V>>) -> bool {
    forall|i: int, n: int| #[trigger]
        on_path(slots, i, n) ==> slots[probe_slot(slots, slots[i]->0, n)] is Occupied
}

/// The invariant of a table's slots.
pub open spec fn slots_wf<K: crate::hash::Hash, V>(slots: Seq<Slot<K, V>>) -> bool {
    unique_keys(slots) && paths_occupied(slots)
}

/// The map from the keys in `slots` to their values.
pub open spec fn contents<K, V>(slots: Seq<Slot<K, V>>) -> Map<K, V> {
    Map::new(
        |k: K| exists|i: int| holds(slots, i, k),
        |k: K| slots[choose|i: int| holds(slots, i, k)]->1,
    )
}

/// What a lookup of `key` in the map `m` finds.
pub open spec fn lookup<K, V>(m: Map<K, V>, key: K) -> Option<V> {
    if m.contains_key(key) {
        Some(m[key])
    } else {
        None
    }
}

/// The map that storing `value` under `key` makes of `m`, in a table of
/// `cap` slots; `None` where the key is new and no slot is left for it.
pub open spec fn store<K, V>(m: Map<K, V>, cap: nat, key: K, value: V) -> Option<
    Map<K, V>,
> {
    if m.contains_key(key) || m.len() < cap {
        Some(m.insert(key, value))
    } else {
        None
    }
}

/// The number of occupied slots.
pub open spec fn occupied<K, V>(slots: Seq<Slot<K, V>>) -> nat
    decreases slots.len(),
{
    if slots.len() == 0 {
        0
    } else {
        occupied(slots.drop_last()) + if slots.last() is Occupied {
            1nat
        } else {
            0nat
        }
    }
}

/// The text of the error that a full table gives.
pub open spec fn full_text() -> Seq<u8> {
    formatted("Map is full".spec_bytes(), ERROR_LEN as nat)
}

/// The bytes of the message that a full table gives.
pub proof fn lemma_full_message()
    ensures
        "Map is full".spec_bytes() =~= seq![
            0x4du8, 0x61, 0x70, 0x20, 0x69, 0x73, 0x20, 0x66, 0x75, 0x6c, 0x6c,
        ],
{
    reveal_strlit("Map is full");
    is_ascii_chars_encode_utf8("Map is full"@);
}

/// `e` is the error that a full table gives.
pub open spec fn is_full_error(e: Error) -> bool {
    e matches Error::CollectionsError(text) && text@ == full_text()
}

/// A probe that passes over steps `n..m` and not over step `m` stops at `m`.
pub proof fn lemma_probe_stop<K: crate::hash::Hash, V>(
    slots: Seq<Slot<K, V>>,
    key: K,
    n: int,
    m: int,
)
    requires
        0 <= n <= m <= slots.len(),
        forall|j: int| n <= j < m ==> passes(#[trigger] slots[probe_slot(slots, key, j)], key),
        m < slots.len() ==> !passes(slots[probe_slot(slots, key, m)], key),
    ensures
        probe_stop(slots, key, n) == m,
    decreases m - n,
{
    if n < m {
        lemma_probe_stop(slots, key, n + 1, m);
    }
}

/// The probe passes over every step before the one it stops at, and not
/// over that one.
pub proof fn lemma_probe_stop_passes<K: crate::hash::Hash, V>(
    slots: Seq<Slot<K, V>>,
    key: K,
    n: int,
)
    requires
        0 <= n <= slots.len(),
    ensures
        n <= probe_stop(slots, key, n) <= slots.len(),
        forall|j: int|
            n <= j < probe_stop(slots, key, n) ==> passes(
                #[trigger] slots[probe_slot(slots, key, j)],
                key,
            ),
        probe_stop(slots, key, n) < slots.len() ==> !passes(
            slots[probe_slot(slots, key, probe_stop(slots, key, n))],
            key,
        ),
    decreases slots.len() - n,
{
    if n < slots.len() && passes(slots[probe_slot(slots, key, n)], key) {
        lemma_probe_stop_passes(slots, key, n + 1);
    }
}

/// In well-formed slots the probe for a key that slot `i` holds stops at `i`.
pub proof fn lemma_probe_finds<K: crate::hash::Hash, V>(slots: Seq<Slot<K, V>>, key: K, i: int)
    requires
        slots_wf(slots),
        holds(slots, i, key),
    ensures
        0 <= probe_stop(slots, key, 0) < slots.len(),
        probe_slot(slots, key, probe_stop(slots, key, 0)) == i,
{
    let cap = slots.len() as int;
    let start = home(key.hash_spec(), cap);
    let d = distance(start, i, cap);
    assert forall|j: int| 0 <= j < d implies passes(
        #[trigger] slots[probe_slot(slots, key, j)],
        key,
    ) by {
        assert(on_path(slots, i, j));
        let s = probe_slot(slots, key, j);
        if slots[s]->0 == key {
            assert(holds(slots, s, key));
        }
    }
    lemma_probe_stop(slots, key, 0, d);
}

/// In well-formed slots the probe for a key that no slot holds stops at an
/// empty slot, or every slot is occupied.
pub proof fn lemma_probe_misses<K: crate::hash::Hash, V>(slots: Seq<Slot<K, V>>, key: K)
    requires
        !contents(slots).contains_key(key),
    ensures
        probe_stop(slots, key, 0) < slots.len() ==> slots[probe_slot(
            slots,
            key,
            probe_stop(slots, key, 0),
        )] is Empty,
        probe_stop(slots, key, 0) >= slots.len() ==> occupied(slots) == slots.len(),
{
    let cap = slots.len() as int;
    let stop = probe_stop(slots, key, 0);
    lemma_probe_stop_passes(slots, key, 0);
    if stop < cap {
        let s = probe_slot(slots, key, stop);
        if slots[s] is Occupied {
            assert(holds(slots, s, key));
        }
    } else if cap > 0 {
        let start = home(key.hash_spec(), cap);
        assert forall|i: int| 0 <= i < cap implies slots[i] is Occupied by {
            let d = distance(start, i, cap);
            assert(probe_slot(slots, key, d) == i);
        }
        lemma_occupied_all(slots);
    }
}

/// The count of occupied slots is at most the number of slots, and reaches
/// it exactly where no slot is empty.
pub proof fn lemma_occupied_all<K, V>(slots: Seq<Slot<K, V>>)
    ensures
        occupied(slots) <= slots.len(),
        occupied(slots) == slots.len() <==> forall|i: int|
            0 <= i < slots.len() ==> slots[i] is Occupied,
    decreases slots.len(),
{
    if slots.len() > 0 {
        let init = slots.drop_last();
        lemma_occupied_all(init);
        if occupied(slots) == slots.len() {
            assert forall|i: int| 0 <= i < slots.len() implies slots[i] is Occupied by {
                if i < init.len() {
                    assert(init[i] is Occupied);
                }
            }
        }
    }
}

/// With no key in two slots, the map has as many keys as there are
/// occupied slots.
pub proof fn lemma_contents_len<K, V>(slots: Seq<Slot<K, V>>)
    requires
        unique_keys(slots),
    ensures
        contents(slots).dom().finite(),
        contents(slots).len() == occupied(slots),
    decreases slots.len(),
{
    if slots.len() == 0 {
        assert(contents(slots).dom() =~= Set::empty());
    } else {
        let init = slots.drop_last();
        let last = slots.len() - 1;
        assert forall|i: int, j: int, k: K| holds(init, i, k) && holds(init, j, k) implies i
            == j by {
            assert(holds(slots, i, k) && holds(slots, j, k));
        }
        lemma_contents_len(init);
        match slots.last() {
            Slot::Empty => {
                assert forall|k: K| contents(slots).dom().contains(k) implies contents(
                    init,
                ).dom().contains(k) by {
                    let i = choose|i: int| holds(slots, i, k);
                    assert(holds(init, i, k));
                }
                assert forall|k: K| contents(init).dom().contains(k) implies contents(
                    slots,
                ).dom().contains(k) by {
                    let i = choose|i: int| holds(init, i, k);
                    assert(holds(slots, i, k));
                }
                assert(contents(slots).dom() =~= contents(init).dom());
            },
            Slot::Occupied(key, _) => {
                assert(holds(slots, last, key));
                if contents(init).dom().contains(key) {
                    let i = choose|i: int| holds(init, i, key);
                    assert(holds(slots, i, key));
                }
                assert forall|k: K| contents(slots).dom().contains(k) implies contents(
                    init,
                ).dom().insert(key).contains(k) by {
                    let i = choose|i: int| holds(slots, i, k);
                    if i < last {
                        assert(holds(init, i, k));
                    }
                }
                assert forall|k: K| contents(init).dom().insert(key).contains(k) implies contents(
                    slots,
                ).dom().contains(k) by {
                    if k != key {
                        let i = choose|i: int| holds(init, i, k);
                        assert(holds(slots, i, k));
                    }
                }
                assert(contents(slots).dom() =~= contents(init).dom().insert(key));
            },
        }
    }
}

/// Storing under a key that slot `i` holds changes the value there and
/// nothing else.
pub proof fn lemma_store_known<K: crate::hash::Hash, V>(
    slots: Seq<Slot<K, V>>,
    i: int,
    key: K,
    value: V,
)
    requires
        slots_wf(slots),
        holds(slots, i, key),
    ensures
        slots_wf(slots.update(i, Slot::Occupied(key, value))),
        contents(slots.update(i, Slot::Occupied(key, value))) == contents(slots).insert(
            key,
            value,
        ),
{
    let after = slots.update(i, Slot::Occupied(key, value));
    assert forall|a: int, k: K| holds(after, a, k) <==> holds(slots, a, k) by {}
    assert forall|a: int, b: int, k: K| holds(after, a, k) && holds(after, b, k) implies a
        == b by {}
    assert forall|a: int, n: int| #[trigger] on_path(after, a, n) implies after[probe_slot(
        after,
        after[a]->0,
        n,
    )] is Occupied by {
        assert(on_path(slots, a, n));
    }
}

/// Storing a key that no slot holds, in the empty slot at which its probe
/// stops, adds the key and changes nothing else.
pub proof fn lemma_store_new<K: crate::hash::Hash, V>(slots: Seq<Slot<K, V>>, key: K, value: V)
    requires
        slots_wf(slots),
        !contents(slots).contains_key(key),
        probe_stop(slots, key, 0) < slots.len(),
    ensures
        ({
            let i = probe_slot(slots, key, probe_stop(slots, key, 0));
            &&& slots_wf(slots.update(i, Slot::Occupied(key, value)))
            &&& contents(slots.update(i, Slot::Occupied(key, value))) == contents(slots).insert(
                key,
                value,
            )
        }),
{
    let stop = probe_stop(slots, key, 0);
    let i = probe_slot(slots, key, stop);
    let after = slots.update(i, Slot::Occupied(key, value));
    lemma_probe_stop_passes(slots, key, 0);
    assert forall|a: int, k: K| holds(after, a, k) <==> (holds(slots, a, k) || (a == i && k
        == key)) by {}
    assert forall|a: int, b: int, k: K| holds(after, a, k) && holds(after, b, k) implies a
        == b by {}
    assert forall|a: int, n: int| #[trigger] on_path(after, a, n) implies after[probe_slot(
        after,
        after[a]->0,
        n,
    )] is Occupied by {
        if a == i {
            assert(passes(slots[probe_slot(slots, key, n)], key));
        } else {
            assert(on_path(slots, a, n));
        }
    }
    lemma_contents_after(slots, after, i, key, value);
}

/// The map of slots that differ from `slots` by `key` and `value` in slot
/// `i`, where no other slot holds `key`.
proof fn lemma_contents_after<K, V>(
    slots: Seq<Slot<K, V>>,
    after: Seq<Slot<K, V>>,
    i: int,
    key: K,
    value: V,
)
    requires
        unique_keys(slots),
        unique_keys(after),
        0 <= i < slots.len(),
        after == slots.update(i, Slot::Occupied(key, value)),
        forall|a: int, k: K| holds(after, a, k) <==> (holds(slots, a, k) || (a == i && k == key)),
    ensures
        contents(after) == contents(slots).insert(key, value),
{
    let m = contents(slots).insert(key, value);
    assert forall|k: K| contents(after).contains_key(k) <==> m.contains_key(k) by {
        if k == key {
            assert(holds(after, i, key));
        }
    }
    assert forall|k: K| contents(after).contains_key(k) implies contents(after)[k] == m[k] by {
        if k == key {
            assert(holds(after, i, key));
        }
    }
}

/// A table of `C` slots that maps keys to values. A key is kept in the
/// first free slot that a linear probe from its home slot finds, and no
/// slot is ever freed again.
pub struct FixedMap<const C: usize, K: crate::hash::Hash + PartialEq, V> {
    slots: [Slot<K, V>; C],
}

impl<const C: usize, K: crate::hash::Hash + PartialEq, V> View for FixedMap<C, K, V> {
    type V = Map<K, V>;

    /// The keys of the table with their values.
    open spec fn view(&self) -> Map<K, V> {
        contents(self.slots())
    }
}

impl<const C: usize, K: crate::hash::Hash + PartialEq, V> FixedMap<C, K, V> {
    /// The `C` slots, in order.
    pub closed spec fn slots(&self) -> Seq<Slot<K, V>> {
        self.slots@
    }

    /// The invariant of the table: no key is in two slots, and the probe
    /// for a key that is in the table reaches it.
    pub open spec fn wf(&self) -> bool {
        self.slots().len() == C && slots_wf(self.slots())
    }

    /// The table without any key.
    pub fn new() -> (m: Self)
        ensures
            m.wf(),
            m@ == Map::<K, V>::empty(),
            forall|i: int| 0 <= i < C ==> m.slots()[i] is Empty,
    {
        let vacant = |i: usize| -> (slot: Slot<K, V>)
            ensures
                slot is Empty,
            {
                let slot: Slot<K, V> = Slot::Empty;
                slot
            };
        FixedMap { slots: core::array::from_fn(vacant) }
    }

    /// Probes for `key` from its home slot on, one slot after the other and
    /// around the end, for at most `C` steps. Gives the first slot that is
    /// empty or holds `key`; fails where every slot holds another key.
    pub fn find_index(&self, key: &K) -> (res: Result<usize, Error>)
        requires
            obeys_concrete_eq::<K>(),
        ensures
            res matches Ok(i) ==> probe_stop(self.slots(), *key, 0) < C && i == probe_slot(
                self.slots(),
                *key,
                probe_stop(self.slots(), *key, 0),
            ),
            res matches Ok(i) ==> self.slots()[i as int] is Empty || holds(
                self.slots(),
                i as int,
                *key,
            ),
            res matches Err(e) ==> probe_stop(self.slots(), *key, 0) == C && is_full_error(e),
    {
        proof {
            lemma_probe_stop_passes(self.slots(), *key, 0);
        }
        if C > 0 {
            let mut index: usize = key.hash() % C;
            let mut n: usize = 0;
            while n < C
                invariant
                    0 < C,
                    n <= C,
                    self.slots().len() == C,
                    obeys_concrete_eq::<K>(),
                    n < C ==> index == probe_slot(self.slots(), *key, n as int),
                    forall|j: int|
                        0 <= j < n ==> passes(
                            #[trigger] self.slots()[probe_slot(self.slots(), *key, j)],
                            *key,
                        ),
                decreases C - n,
            {
                proof {
                    reveal(obeys_concrete_eq);
                }
                match &self.slots[index] {
                    Slot::Empty => {
                        proof {
                            lemma_probe_stop(self.slots(), *key, 0, n as int);
                        }
                        return Ok(index);
                    },
                    Slot::Occupied(k, _) => {
                        if *key == *k {
                            proof {
                                lemma_probe_stop(self.slots(), *key, 0, n as int);
                            }
                            return Ok(index);
                        }
                    },
                }
                n = n + 1;
                index = if index + 1 == C {
                    0
                } else {
                    index + 1
                };
            }
        }
        proof {
            lemma_full_message();
        }
        Err(Error::CollectionsError(sformat::<ERROR_LEN>("Map is full")))
    }

    /// The value stored under `key`, if there is one. Never fails.
    pub fn get(&self, key: &K) -> (res: Result<Option<&V>, Error>)
        requires
            self.wf(),
            obeys_concrete_eq::<K>(),
        ensures
            (res matches Ok(found) && match found {
                Some(value) => lookup(self@, *key) == Some(*value),
                None => lookup(self@, *key) is None,
            }),
    {
        proof {
            if self@.contains_key(*key) {
                let i = choose|i: int| holds(self.slots(), i, *key);
                lemma_probe_finds(self.slots(), *key, i);
            }
        }
        match self.find_index(key) {
            Ok(index) => match &self.slots[index] {
                Slot::Occupied(_, value) => {
                    Ok(Some(value))
                },
                Slot::Empty => Ok(None),
            },
            Err(_) => Ok(None),
        }
    }

    /// The value stored under `key`, if there is one, to be changed in
    /// place. Never fails.
    pub fn get_mut(&mut self, key: &K) -> (res: Result<Option<&mut V>, Error>)
        requires
            old(self).wf(),
            obeys_concrete_eq::<K>(),
        ensures
            final(self).wf(),
            (res matches Ok(found) && match found {
                Some(value) => lookup(old(self)@, *key) == Some(*value) && final(self)@ == old(
                    self,
                )@.insert(*key, *final(value)),
                None => lookup(old(self)@, *key) is None && final(self)@ == old(self)@,
            }),
    {
        proof {
            if self@.contains_key(*key) {
                let i = choose|i: int| holds(self.slots(), i, *key);
                lemma_probe_finds(self.slots(), *key, i);
            }
        }
        let index = match self.find_index(key) {
            Ok(index) => index,
            Err(_) => {
                return Ok(None);
            },
        };
        proof {
            if holds(self.slots(), index as int, *key) {
                assert forall|value: V|
                    slots_wf(
                        #[trigger] self.slots().update(index as int, Slot::Occupied(*key, value)),
                    ) && contents(self.slots().update(index as int, Slot::Occupied(*key, value)))
                        == self@.insert(*key, value) by {
                    lemma_store_known(self.slots(), index as int, *key, value);
                }
            }
        }
        Ok(self.value_mut(index))
    }

    /// The value in slot `index`, if the slot is occupied, to be changed in
    /// place.
    fn value_mut(&mut self, index: usize) -> (found: Option<&mut V>)
        requires
            index < C,
        ensures
            (match found {
                Some(value) => old(self).slots()[index as int] is Occupied && *value == old(
                    self,
                ).slots()[index as int]->1 && final(self).slots() == old(self).slots().update(
                    index as int,
                    Slot::Occupied(old(self).slots()[index as int]->0, *final(value)),
                ),
                None => old(self).slots()[index as int] is Empty && final(self).slots() == old(
                    self,
                ).slots(),
            }),
    {
        match &mut self.slots[index] {
            Slot::Occupied(_, value) => Some(value),
            Slot::Empty => None,
        }
    }

    /// Stores `value` under `key`, in place of the value that was there.
    /// Fails, and changes nothing, where the key is new and every slot is
    /// taken.
    pub fn set(&mut self, key: K, value: V) -> (res: Result<(), Error>)
        requires
            old(self).wf(),
            obeys_concrete_eq::<K>(),
        ensures
            final(self).wf(),
            (match store(old(self)@, C as nat, key, value) {
                Some(m) => res is Ok && final(self)@ == m,
                None => (res matches Err(e) && is_full_error(e)) && final(self).slots() == old(
                    self,
                ).slots(),
            }),
    {
        proof {
            if self@.contains_key(key) {
                let i = choose|i: int| holds(self.slots(), i, key);
                lemma_probe_finds(self.slots(), key, i);
            } else {
                lemma_probe_misses(self.slots(), key);
            }
            lemma_contents_len(self.slots());
            lemma_occupied_all(self.slots());
        }
        match self.find_index(&key) {
            Ok(index) => {
                proof {
                    if self@.contains_key(key) {
                        lemma_store_known(self.slots(), index as int, key, value);
                    } else {
                        lemma_store_new(self.slots(), key, value);
                    }
                }
                self.slots[index] = Slot::Occupied(key, value);
                Ok(())
            },
            Err(e) => Err(e),
        }
    }
}

/// The map that the stores `ops` make of `m`, one after the other, where a
/// store that fails changes nothing.
pub open spec fn store_all<K, V>(m: Map<K, V>, cap: nat, ops: Seq<(K, V)>) -> Map<
    K,
    V,
>
    decreases ops.len(),
{
    if ops.len() == 0 {
        m
    } else {
        let before = store_all(m, cap, ops.drop_last());
        match store(before, cap, ops.last().0, ops.last().1) {
            Some(after) => after,
            None => before,
        }
    }
}

/// The keys of `ops`.
pub open spec fn keys_of<K, V>(ops: Seq<(K, V)>) -> Set<K>
    decreases ops.len(),
{
    if ops.len() == 0 {
        Set::empty()
    } else {
        keys_of(ops.drop_last()).insert(ops.last().0)
    }
}

/// The value of the last of `ops` that has the key `key`.
pub open spec fn last_value<K, V>(ops: Seq<(K, V)>, key: K) -> Option<V>
    decreases ops.len(),
{
    if ops.len() == 0 {
        None
    } else if ops.last().0 == key {
        Some(ops.last().1)
    } else {
        last_value(ops.drop_last(), key)
    }
}

/// The keys of `ops` are finitely many, they are the keys at its indices,
/// and those of a prefix are among them.
pub proof fn lemma_keys_of<K, V>(ops: Seq<(K, V)>)
    ensures
        keys_of(ops).finite(),
        forall|i: int| 0 <= i < ops.len() ==> keys_of(ops).contains(#[trigger] ops[i].0),
        forall|k: K|
            keys_of(ops).contains(k) ==> exists|i: int| 0 <= i < ops.len() && #[trigger] ops[i].0
                == k,
        forall|n: int|
            0 <= n <= ops.len() ==> (#[trigger] keys_of(ops.take(n))).subset_of(keys_of(ops)),
    decreases ops.len(),
{
    if ops.len() > 0 {
        let init = ops.drop_last();
        lemma_keys_of(init);
        assert forall|i: int| 0 <= i < ops.len() implies keys_of(ops).contains(
            #[trigger] ops[i].0,
        ) by {
            if i < init.len() {
                assert(init[i].0 == ops[i].0);
            }
        }
        assert forall|n: int| 0 <= n <= ops.len() implies (#[trigger] keys_of(
            ops.take(n),
        )).subset_of(keys_of(ops)) by {
            if n == ops.len() {
                assert(ops.take(n) =~= ops);
            } else {
                assert(ops.take(n) =~= init.take(n));
            }
        }
    }
}

/// Where the keys of a map and of a run of stores together are no more
/// than the capacity, every store of the run succeeds, and afterwards a
/// lookup of a key gives the value of the last store under that key, or,
/// for a key that the run does not store, what it gave before.
pub proof fn lemma_stored_keys_retrievable<K, V>(
    m: Map<K, V>,
    cap: nat,
    ops: Seq<(K, V)>,
)
    requires
        m.dom().finite(),
        m.dom().union(keys_of(ops)).len() <= cap,
    ensures
        forall|i: int|
            0 <= i < ops.len() ==> (#[trigger] store(
                store_all(m, cap, ops.take(i)),
                cap,
                ops[i].0,
                ops[i].1,
            )) is Some,
        store_all(m, cap, ops).dom() == m.dom().union(keys_of(ops)),
        (forall|k: K|
            #[trigger] lookup(store_all(m, cap, ops), k) == if keys_of(ops).contains(k) {
                last_value(ops, k)
            } else {
                lookup(m, k)
            }),
    decreases ops.len(),
{
    lemma_keys_of(ops);
    if ops.len() == 0 {
    } else {
        let init = ops.drop_last();
        let all = m.dom().union(keys_of(ops));
        let key = ops.last().0;
        vstd::set_lib::lemma_len_subset(m.dom().union(keys_of(init)), all);
        lemma_stored_keys_retrievable(m, cap, init);
        let before = store_all(m, cap, init);
        if !before.contains_key(key) {
            vstd::set_lib::lemma_len_subset(before.dom().insert(key), all);
        }
        assert forall|k: K| #[trigger]
            lookup(store_all(m, cap, ops), k) == if keys_of(ops).contains(k) {
                last_value(ops, k)
            } else {
                lookup(m, k)
            } by {
            if k != key {
                assert(lookup(store_all(m, cap, ops), k) == lookup(before, k));
            }
        }
        assert forall|i: int| 0 <= i < ops.len() implies (#[trigger] store(
            store_all(m, cap, ops.take(i)),
            cap,
            ops[i].0,
            ops[i].1,
        )) is Some by {
            if i < init.len() {
                assert(ops.take(i) =~= init.take(i));
                assert(store(store_all(m, cap, init.take(i)), cap, init[i].0, init[i].1) is Some);
            }
        }
    }
}

/// Stores of `cap + 1` different keys into an empty table of `cap` slots:
/// the first `cap` succeed and the last one fails.
pub proof fn lemma_full_table_refuses<K, V>(cap: nat, ops: Seq<(K, V)>)
    requires
        ops.len() == cap + 1,
        forall|i: int, j: int| 0 <= i < j < ops.len() ==> ops[i].0 != ops[j].0,
    ensures
        forall|i: int|
            0 <= i < cap ==> (#[trigger] store(
                store_all(Map::empty(), cap, ops.take(i)),
                cap,
                ops[i].0,
                ops[i].1,
            )) is Some,
        store(
            store_all(Map::empty(), cap, ops.take(cap as int)),
            cap,
            ops[cap as int].0,
            ops[cap as int].1,
        ) is None,
{
    let empty = Map::<K, V>::empty();
    assert forall|i: int| 0 <= i <= cap implies {
        &&& (#[trigger] store_all(empty, cap, ops.take(i))).dom() == keys_of(ops.take(i))
        &&& keys_of(ops.take(i)).len() == i
        &&& !keys_of(ops.take(i)).contains(ops[i].0)
    } by {
        lemma_distinct_keys(ops.take(i));
        assert(empty.dom().union(keys_of(ops.take(i))) =~= keys_of(ops.take(i)));
        lemma_stored_keys_retrievable(empty, cap, ops.take(i));
        lemma_keys_of(ops.take(i));
    }
}

/// A run of stores under different keys has as many keys as stores.
pub proof fn lemma_distinct_keys<K, V>(ops: Seq<(K, V)>)
    requires
        forall|i: int, j: int| 0 <= i < j < ops.len() ==> ops[i].0 != ops[j].0,
    ensures
        keys_of(ops).finite(),
        keys_of(ops).len() == ops.len(),
    decreases ops.len(),
{
    if ops.len() > 0 {
        let init = ops.drop_last();
        lemma_distinct_keys(init);
        lemma_keys_of(init);
    }
}

/// In a well-formed table a key of the map is in exactly one slot, with its
/// value, and a key that is not in the map is in none.
pub proof fn lemma_one_slot_per_key<K: crate::hash::Hash, V>(slots: Seq<Slot<K, V>>, key: K)
    requires
        slots_wf(slots),
    ensures
        (contents(slots).contains_key(key) ==> exists|i: int|
            {
                &&& #[trigger] holds(slots, i, key)
                &&& slots[i]->1 == contents(slots)[key]
                &&& forall|j: int| holds(slots, j, key) ==> j == i
            }),
        !contents(slots).contains_key(key) ==> forall|i: int| !holds(slots, i, key),
{
}

/// Two stores under one key, the second on the table that the first has
/// left. Where the first succeeds, the second does; afterwards the table
/// maps the key to the second value, holds the key in exactly one slot, and
/// has as many keys as after the first store.
pub proof fn lemma_store_twice<const C: usize, K: crate::hash::Hash + PartialEq, V>(
    start: FixedMap<C, K, V>,
    mid: FixedMap<C, K, V>,
    end: FixedMap<C, K, V>,
    key: K,
    first: V,
    second: V,
)
    requires
        start.wf(),
        mid.wf(),
        end.wf(),
        store(start@, C as nat, key, first) == Some(mid@),
        store(mid@, C as nat, key, second) is Some ==> store(mid@, C as nat, key, second)
            == Some(end@),
    ensures
        store(mid@, C as nat, key, second) is Some,
        end@ == start@.insert(key, second),
        end@.len() == mid@.len(),
        (exists|i: int|
            {
                &&& #[trigger] holds(end.slots(), i, key)
                &&& end.slots()[i]->1 == second
                &&& forall|j: int| holds(end.slots(), j, key) ==> j == i
            }),
{
    lemma_contents_len(start.slots());
    assert(start@.insert(key, first).insert(key, second) =~= start@.insert(key, second));
    assert(start@.insert(key, first).dom() =~= start@.insert(key, second).dom());
    lemma_one_slot_per_key(end.slots(), key);
}

/// A probe examines no more slots than the table has: it stops at a step
/// below the capacity, or has been through all the slots at the step that
/// equals it.
pub proof fn lemma_probe_bounded<K: crate::hash::Hash, V>(slots: Seq<Slot<K, V>>, key: K)
    ensures
        0 <= probe_stop(slots, key, 0) <= slots.len(),
{
    lemma_probe_stop_passes(slots, key, 0);
}

} // verus!
