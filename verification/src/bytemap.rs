//! A finite map from byte strings to byte strings.

use vstd::prelude::*;
use crate::bytes::{bytes_eq, copy_bytes};

verus! {

/// One key with its value.
pub struct Slot {
    pub key: Vec<u8>,
    pub value: Vec<u8>,
}

/// A map from byte strings to byte strings, held as a list of slots in
/// which no key occurs twice.
pub struct ByteMap {
    slots: Vec<Slot>,
}

/// Whether `key` is the key of the slot at `i`.
pub open spec fn slot_has_key(slots: Seq<Slot>, i: int, key: Seq<u8>) -> bool {
    0 <= i < slots.len() && slots[i].key@ == key
}

/// Whether no two slots share a key.
pub open spec fn distinct_keys(slots: Seq<Slot>) -> bool {
    forall|i: int, j: int|
        0 <= i < slots.len() && 0 <= j < slots.len() && #[trigger] slots[i].key@
            == #[trigger] slots[j].key@ ==> i == j
}

/// The map that a sequence of slots stands for.
pub open spec fn slots_map(slots: Seq<Slot>) -> Map<Seq<u8>, Seq<u8>> {
    Map::new(
        |key: Seq<u8>| exists|i: int| slot_has_key(slots, i, key),
        |key: Seq<u8>| slots[choose|i: int| slot_has_key(slots, i, key)].value@,
    )
}

impl ByteMap {
    /// The invariant: no key occurs twice.
    pub closed spec fn wf(self) -> bool {
        distinct_keys(self.slots@)
    }

    /// The slots, one for each key.
    pub closed spec fn slots(self) -> Seq<Slot> {
        self.slots@
    }

    /// The map that this value stands for.
    pub open spec fn view(self) -> Map<Seq<u8>, Seq<u8>> {
        slots_map(self.slots())
    }

    /// The number of keys.
    pub open spec fn count(self) -> nat {
        self.slots().len()
    }

    /// The map is finite, and `count` is the number of its keys.
    pub proof fn lemma_count(self)
        requires
            self.wf(),
        ensures
            self@.dom().finite(),
            self@.dom().len() == self.count(),
    {
        lemma_slots_count(self.slots@);
    }

    /// The empty map.
    pub fn new() -> (m: Self)
        ensures
            m.wf(),
            m@ == Map::<Seq<u8>, Seq<u8>>::empty(),
            m.slots() == Seq::<Slot>::empty(),
    {
        let m = ByteMap { slots: Vec::new() };
        assert(m@ =~= Map::<Seq<u8>, Seq<u8>>::empty());
        m
    }

    /// The number of keys.
    pub fn len(&self) -> (n: usize)
        ensures
            n == self.count(),
    {
        self.slots.len()
    }

    /// The slot at position `i`: one of the keys with its value. The slots
    /// at the positions below `count` are all the keys.
    pub fn slot(&self, i: usize) -> (s: &Slot)
        requires
            self.wf(),
            i < self.count(),
        ensures
            *s == self.slots()[i as int],
            self@.contains_key(s.key@),
            self@[s.key@] == s.value@,
    {
        proof {
            lemma_slot_value(self.slots@, i as int, self.slots@[i as int].key@);
        }
        &self.slots[i]
    }

    fn position(&self, key: &[u8]) -> (found: Option<usize>)
        ensures
            match found {
                Some(i) => slot_has_key(self.slots@, i as int, key@),
                None => forall|i: int| !slot_has_key(self.slots@, i, key@),
            },
    {
        let mut i: usize = 0;
        while i < self.slots.len()
            invariant
                i <= self.slots@.len(),
                forall|j: int| 0 <= j < i ==> !slot_has_key(self.slots@, j, key@),
            decreases self.slots@.len() - i,
        {
            if bytes_eq(self.slots[i].key.as_slice(), key) {
                return Some(i);
            }
            i += 1;
        }
        None
    }

    /// The value stored under `key`, if there is one.
    pub fn get(&self, key: &[u8]) -> (found: Option<&Vec<u8>>)
        requires
            self.wf(),
        ensures
            match found {
                Some(value) => self@.contains_key(key@) && value@ == self@[key@],
                None => !self@.contains_key(key@),
            },
    {
        match self.position(key) {
            Some(i) => {
                proof {
                    lemma_slot_value(self.slots@, i as int, key@);
                }
                Some(&self.slots[i].value)
            },
            None => None,
        }
    }

    /// Whether a value is stored under `key`.
    pub fn contains_key(&self, key: &[u8]) -> (yes: bool)
        ensures
            yes == self@.contains_key(key@),
    {
        self.position(key).is_some()
    }

    /// Stores `value` under `key`, in place of any value stored there before.
    pub fn insert(&mut self, key: Vec<u8>, value: Vec<u8>)
        requires
            old(self).wf(),
        ensures
            final(self).wf(),
            final(self)@ == old(self)@.insert(key@, value@),
            final(self).count() == old(self).count() + if old(self)@.contains_key(key@) {
                0int
            } else {
                1int
            },
    {
        let ghost before = self.slots@;
        match self.position(key.as_slice()) {
            Some(i) => {
                self.slots[i].value = value;
                proof {
                    let after = self.slots@;
                    assert forall|j: int| 0 <= j < after.len() implies #[trigger] after[j].key@
                        == before[j].key@ by {}
                    assert forall|k: Seq<u8>| #[trigger]
                        slots_map(after).contains_key(k) == slots_map(before).insert(
                            key@,
                            value@,
                        ).contains_key(k) by {
                        if slots_map(after).contains_key(k) {
                            let j = choose|j: int| slot_has_key(after, j, k);
                            assert(slot_has_key(before, j, k));
                        }
                        if slots_map(before).contains_key(k) {
                            let j = choose|j: int| slot_has_key(before, j, k);
                            assert(slot_has_key(after, j, k));
                        }
                        if k == key@ {
                            assert(slot_has_key(after, i as int, k));
                        }
                    }
                    assert forall|k: Seq<u8>| #[trigger]
                        slots_map(after).contains_key(k) implies slots_map(after)[k]
                        == slots_map(before).insert(key@, value@)[k] by {
                        lemma_slot_value(after, choose|j: int| slot_has_key(after, j, k), k);
                        let j = choose|j: int| slot_has_key(after, j, k);
                        if k != key@ {
                            lemma_slot_value(before, j, k);
                        }
                    }
                    assert(self@ =~= slots_map(before).insert(key@, value@));
                }
            },
            None => {
                self.slots.push(Slot { key, value });
                proof {
                    let after = self.slots@;
                    let n = before.len() as int;
                    assert(slot_has_key(after, n, key@));
                    assert(distinct_keys(after)) by {
                        assert forall|i: int, j: int|
                            0 <= i < after.len() && 0 <= j < after.len() && #[trigger] after[i].key@
                                == #[trigger] after[j].key@ implies i == j by {
                            if i < n && j == n {
                                assert(slot_has_key(before, i, key@));
                            }
                            if j < n && i == n {
                                assert(slot_has_key(before, j, key@));
                            }
                        }
                    }
                    assert forall|k: Seq<u8>| #[trigger]
                        slots_map(after).contains_key(k) == slots_map(before).insert(
                            key@,
                            value@,
                        ).contains_key(k) by {
                        if slots_map(after).contains_key(k) {
                            let j = choose|j: int| slot_has_key(after, j, k);
                            if j < n {
                                assert(slot_has_key(before, j, k));
                            }
                        }
                        if slots_map(before).contains_key(k) {
                            let j = choose|j: int| slot_has_key(before, j, k);
                            assert(slot_has_key(after, j, k));
                        }
                    }
                    assert forall|k: Seq<u8>| #[trigger]
                        slots_map(after).contains_key(k) implies slots_map(after)[k]
                        == slots_map(before).insert(key@, value@)[k] by {
                        let j = choose|j: int| slot_has_key(after, j, k);
                        lemma_slot_value(after, j, k);
                        if k != key@ {
                            assert(slot_has_key(before, j, k));
                            lemma_slot_value(before, j, k);
                        } else {
                            lemma_slot_value(after, n, k);
                        }
                    }
                    assert(self@ =~= slots_map(before).insert(key@, value@));
                }
            },
        }
    }
}

impl ByteMap {
    /// Stores every key of `other` with its value, in place of any value
    /// stored under that key before.
    pub fn extend(&mut self, other: &ByteMap)
        requires
            old(self).wf(),
            other.wf(),
        ensures
            final(self).wf(),
            final(self)@ == old(self)@.union_prefer_right(other@),
    {
        let mut i: usize = 0;
        assert(slots_map(other.slots@.take(0)) =~= Map::<Seq<u8>, Seq<u8>>::empty());
        assert(self@ =~= old(self)@.union_prefer_right(slots_map(other.slots@.take(0))));
        while i < other.slots.len()
            invariant
                self.wf(),
                other.wf(),
                i <= other.slots@.len(),
                self@ == old(self)@.union_prefer_right(slots_map(other.slots@.take(i as int))),
            decreases other.slots@.len() - i,
        {
            let key = copy_bytes(other.slots[i].key.as_slice());
            let value = copy_bytes(other.slots[i].value.as_slice());
            proof {
                lemma_take_next(other.slots@, i as int);
                let sofar = slots_map(other.slots@.take(i as int));
                assert(old(self)@.union_prefer_right(sofar).insert(key@, value@) =~= old(
                    self,
                )@.union_prefer_right(sofar.insert(key@, value@)));
            }
            self.insert(key, value);
            i += 1;
        }
        assert(other.slots@.take(other.slots@.len() as int) =~= other.slots@);
    }
}

/// Among distinct keys, the first `i + 1` slots stand for the map of the
/// first `i` slots with the slot at `i` inserted.
pub proof fn lemma_take_next(slots: Seq<Slot>, i: int)
    requires
        distinct_keys(slots),
        0 <= i < slots.len(),
    ensures
        slots_map(slots.take(i + 1)) == slots_map(slots.take(i)).insert(
            slots[i].key@,
            slots[i].value@,
        ),
{
    let more = slots.take(i + 1);
    let less = slots.take(i);
    let key = slots[i].key@;
    let value = slots[i].value@;
    assert(distinct_keys(more)) by {
        assert forall|a: int, b: int|
            0 <= a < more.len() && 0 <= b < more.len() && #[trigger] more[a].key@
                == #[trigger] more[b].key@ implies a == b by {
            assert(slots[a].key@ == slots[b].key@);
        }
    }
    assert(distinct_keys(less)) by {
        assert forall|a: int, b: int|
            0 <= a < less.len() && 0 <= b < less.len() && #[trigger] less[a].key@
                == #[trigger] less[b].key@ implies a == b by {
            assert(slots[a].key@ == slots[b].key@);
        }
    }
    assert(slot_has_key(more, i, key));
    assert forall|k: Seq<u8>| #[trigger]
        slots_map(more).contains_key(k) == slots_map(less).insert(key, value).contains_key(
            k,
        ) by {
        if slots_map(more).contains_key(k) {
            let j = choose|j: int| slot_has_key(more, j, k);
            if j < i {
                assert(slot_has_key(less, j, k));
            }
        }
        if slots_map(less).contains_key(k) {
            let j = choose|j: int| slot_has_key(less, j, k);
            assert(slot_has_key(more, j, k));
        }
    }
    assert forall|k: Seq<u8>| #[trigger] slots_map(more).contains_key(k) implies slots_map(
        more,
    )[k] == slots_map(less).insert(key, value)[k] by {
        let j = choose|j: int| slot_has_key(more, j, k);
        lemma_slot_value(more, j, k);
        if k != key {
            assert(slot_has_key(less, j, k));
            lemma_slot_value(less, j, k);
        } else {
            lemma_slot_value(more, i, k);
        }
    }
    assert(slots_map(more) =~= slots_map(less).insert(key, value));
}

/// Distinct keys stand for a finite map with as many keys as there are
/// slots.
pub proof fn lemma_slots_count(slots: Seq<Slot>)
    requires
        distinct_keys(slots),
    ensures
        slots_map(slots).dom().finite(),
        slots_map(slots).dom().len() == slots.len(),
    decreases slots.len(),
{
    if slots.len() == 0 {
        assert(slots_map(slots).dom() =~= Set::<Seq<u8>>::empty());
    } else {
        let n = slots.len() - 1;
        let less = slots.take(n);
        assert(distinct_keys(less)) by {
            assert forall|a: int, b: int|
                0 <= a < less.len() && 0 <= b < less.len() && #[trigger] less[a].key@
                    == #[trigger] less[b].key@ implies a == b by {
                assert(slots[a].key@ == slots[b].key@);
            }
        }
        lemma_slots_count(less);
        lemma_take_next(slots, n);
        assert(slots.take(n + 1) =~= slots);
        let key = slots[n].key@;
        assert(!slots_map(less).dom().contains(key)) by {
            if slots_map(less).dom().contains(key) {
                let j = choose|j: int| slot_has_key(less, j, key);
                assert(slots[j].key@ == slots[n].key@);
            }
        }
        assert(slots_map(slots).dom() =~= slots_map(less).dom().insert(key));
    }
}

/// With distinct keys, the map holds under a slot's key that slot's value.
pub proof fn lemma_slot_value(slots: Seq<Slot>, i: int, key: Seq<u8>)
    requires
        distinct_keys(slots),
        slot_has_key(slots, i, key),
    ensures
        slots_map(slots).contains_key(key),
        slots_map(slots)[key] == slots[i].value@,
{
    let j = choose|j: int| slot_has_key(slots, j, key);
    assert(slots[i].key@ == slots[j].key@);
}

} // verus!
