//! The table: its invariant, its contracts and its public operations.

use vstd::prelude::*;

use crate::hasher::{hash_key, spec_hash_key};
use crate::slots::{
    Entry, Slot, close_gap, count_occupied, empty_slots, holds_key, lemma_absent,
    lemma_count_update, lemma_empty_slots, lemma_gap_open, lemma_probe_index, lemma_set_entry,
    lemma_view_at, lemma_view_clear, lemma_view_fill, occupied, place_entry, probe_index,
    rehash, slots_ok, slots_view, entry_at, robin_hood_insert, backward_shift,
};

verus! {

/// What an insertion did with its key.
#[derive(Clone, Copy, Debug, PartialEq, Eq, Structural)]
pub enum InsertOutcome {
    /// The key was absent and now has its own slot.
    Inserted,
    /// The key was present; its value was replaced.
    Updated,
}

/// Why a table could not be created.
#[derive(Clone, Copy, Debug, PartialEq, Eq, Structural)]
pub enum CreateError {
    /// The initial capacity was zero.
    ZeroCapacity,
    /// The load factor `num / den` was not in `(0, 1]`.
    InvalidLoadFactor,
}

/// Why an insertion failed.
#[derive(Clone, Copy, Debug, PartialEq, Eq, Structural)]
pub enum InsertError {
    /// The table had to grow, and doubling its capacity enough times to
    /// respect the load factor would not fit in a `usize`.
    CapacityExhausted,
}

/// A map from `u32` to `u32` with open addressing and Robin Hood probing.
/// The maximum load factor is the fraction `load_num / load_den`.
pub struct Table {
    slots: Vec<Slot>,
    len: usize,
    load_num: usize,
    load_den: usize,
}

/// Whether `len` entries fit in `cap` slots under the load factor `num / den`.
pub open spec fn within_load(len: nat, cap: nat, num: nat, den: nat) -> bool {
    len * den <= cap * num
}

/// The capacity reached from `cap` by doubling until one more entry than
/// `len` respects the load factor, or until it no longer fits in a `usize`.
pub open spec fn grown_capacity(len: nat, cap: nat, num: nat, den: nat) -> nat
    decreases (if cap <= usize::MAX {
        usize::MAX + 1 - cap
    } else {
        0
    }),
{
    if cap == 0 || cap > usize::MAX || within_load(len + 1, cap, num, den) {
        cap
    } else {
        grown_capacity(len, 2 * cap, num, den)
    }
}

/// What `lookup` returns for `key` on a table whose view is `m`.
pub open spec fn spec_lookup(m: Map<u32, u32>, key: u32) -> Option<u32> {
    if m.contains_key(key) {
        Some(m[key])
    } else {
        None
    }
}

/// What constructing a table of `initial_capacity` slots with the maximum
/// load factor `load_num / load_den` returns: an empty table, or the reason
/// the input is rejected.
pub open spec fn create_result(
    initial_capacity: usize,
    load_num: usize,
    load_den: usize,
    r: Result<Table, CreateError>,
) -> bool {
    match r {
        Ok(t) => {
            &&& initial_capacity > 0
            &&& 0 < load_num <= load_den
            &&& t.wf()
            &&& t@ == Map::<u32, u32>::empty()
            &&& t.spec_len() == 0
            &&& t.spec_capacity() == initial_capacity
            &&& t.spec_load_num() == load_num
            &&& t.spec_load_den() == load_den
        },
        Err(CreateError::ZeroCapacity) => initial_capacity == 0,
        Err(CreateError::InvalidLoadFactor) => {
            &&& initial_capacity > 0
            &&& !(0 < load_num <= load_den)
        },
    }
}

/// How `insert(key, value)` relates the table before and after, and its
/// result.
pub open spec fn insert_result(
    before: Table,
    after: Table,
    key: u32,
    value: u32,
    r: Result<InsertOutcome, InsertError>,
) -> bool {
    let target = grown_capacity(
        before.spec_len(),
        before.spec_capacity(),
        before.spec_load_num(),
        before.spec_load_den(),
    );
    &&& after.spec_load_num() == before.spec_load_num()
    &&& after.spec_load_den() == before.spec_load_den()
    &&& match r {
        Ok(outcome) => {
            &&& target <= usize::MAX
            &&& after@ == before@.insert(key, value)
            &&& after.spec_capacity() == target
            &&& outcome == (if before@.contains_key(key) {
                InsertOutcome::Updated
            } else {
                InsertOutcome::Inserted
            })
            &&& after.spec_len() == if before@.contains_key(key) {
                before.spec_len()
            } else {
                before.spec_len() + 1
            }
        },
        Err(InsertError::CapacityExhausted) => {
            &&& target > usize::MAX
            &&& after == before
        },
    }
}

/// Where `insert(key, value)` leaves the entries when it did not grow the
/// table: a present key gets the new value in its own slot; an absent key is
/// placed by the Robin Hood walk from its home slot.
pub open spec fn insert_layout(before: Table, after: Table, key: u32, value: u32) -> bool {
    let s = before.slots_seq();
    after.spec_capacity() == before.spec_capacity() ==> if before@.contains_key(key) {
        exists|i: int|
            #![trigger holds_key(s, i, key)]
            holds_key(s, i, key) && after.slots_seq() == s.update(
                i,
                Slot::Occupied(
                    Entry {
                        key: entry_at(s, i).key,
                        value,
                        hash: entry_at(s, i).hash,
                        probe_distance: entry_at(s, i).probe_distance,
                    },
                ),
            )
    } else {
        after.slots_seq() == robin_hood_insert(
            s,
            Entry { key, value, hash: spec_hash_key(key), probe_distance: 0 },
        )
    }
}

/// How `delete(key)` relates the table before and after, and its result.
pub open spec fn delete_result(before: Table, after: Table, key: u32, r: Option<u32>) -> bool {
    &&& after@ == before@.remove(key)
    &&& after.spec_capacity() == before.spec_capacity()
    &&& after.spec_load_num() == before.spec_load_num()
    &&& after.spec_load_den() == before.spec_load_den()
    &&& r == spec_lookup(before@, key)
    &&& r is Some ==> after.spec_len() + 1 == before.spec_len()
    &&& r is None ==> after.spec_len() == before.spec_len()
}

/// Where `delete(key)` leaves the entries: when the key was found, its slot
/// is emptied and the gap is closed by the backward shift; otherwise nothing
/// moves.
pub open spec fn delete_layout(before: Table, after: Table, key: u32, r: Option<u32>) -> bool {
    let s = before.slots_seq();
    match r {
        Some(_) => exists|i: int|
            #![trigger holds_key(s, i, key)]
            holds_key(s, i, key) && after.slots_seq() == backward_shift(
                s.update(i, Slot::Empty),
                i,
            ),
        None => after.slots_seq() == s,
    }
}

impl View for Table {
    type V = Map<u32, u32>;

    open spec fn view(&self) -> Map<u32, u32> {
        slots_view(self.slots_seq())
    }
}

impl Table {
    pub closed spec fn slots_seq(&self) -> Seq<Slot> {
        self.slots@
    }

    pub closed spec fn spec_len(&self) -> nat {
        self.len as nat
    }

    pub closed spec fn spec_load_num(&self) -> nat {
        self.load_num as nat
    }

    pub closed spec fn spec_load_den(&self) -> nat {
        self.load_den as nat
    }

    pub open spec fn spec_capacity(&self) -> nat {
        self.slots_seq().len()
    }

    /// The table's invariant.
    pub open spec fn wf(&self) -> bool {
        &&& slots_ok(self.slots_seq())
        &&& self.spec_len() == count_occupied(self.slots_seq())
        &&& 0 < self.spec_load_num() <= self.spec_load_den()
        &&& within_load(
            self.spec_len(),
            self.spec_capacity(),
            self.spec_load_num(),
            self.spec_load_den(),
        )
    }
}

impl Table {
    /// Makes an empty table of `initial_capacity` slots whose load factor may
    /// not exceed `load_num / load_den`.
    pub fn create(initial_capacity: usize, load_num: usize, load_den: usize) -> (r: Result<
        Table,
        CreateError,
    >)
        ensures
            create_result(initial_capacity, load_num, load_den, r),
    {
        if initial_capacity == 0 {
            return Err(CreateError::ZeroCapacity);
        }
        if load_num == 0 || load_num > load_den {
            return Err(CreateError::InvalidLoadFactor);
        }
        let slots = empty_slots(initial_capacity);
        proof {
            lemma_empty_slots(slots@);
        }
        Ok(Table { slots, len: 0, load_num, load_den })
    }

    /// Makes an empty table of `cap` slots whose load factor may not exceed
    /// `load_num / load_den`; the same as `create`.
    pub fn init(cap: usize, load_num: usize, load_den: usize) -> (r: Result<Table, CreateError>)
        ensures
            create_result(cap, load_num, load_den, r),
    {
        Table::create(cap, load_num, load_den)
    }

    /// The number of slots.
    pub fn capacity(&self) -> (r: usize)
        ensures
            r == self.spec_capacity(),
    {
        self.slots.len()
    }

    /// The number of stored entries.
    pub fn len(&self) -> (r: usize)
        ensures
            r == self.spec_len(),
    {
        self.len
    }

    /// The numerator and the denominator of the maximum load factor.
    pub fn max_load_factor(&self) -> (r: (usize, usize))
        ensures
            r.0 == self.spec_load_num(),
            r.1 == self.spec_load_den(),
    {
        (self.load_num, self.load_den)
    }

    /// What slot `i` holds: its entry, or `None` when it is empty.
    pub fn entry(&self, i: usize) -> (r: Option<Entry>)
        requires
            i < self.spec_capacity(),
        ensures
            match r {
                Some(e) => self.slots_seq()[i as int] == Slot::Occupied(e),
                None => self.slots_seq()[i as int] == Slot::Empty,
            },
    {
        match &self.slots[i] {
            Slot::Empty => None,
            Slot::Occupied(e) => Some(*e),
        }
    }

    /// The slot that holds `key`, whose hash code is `hashcode`, found by a
    /// walk from its home slot that stops early at an empty slot or at an
    /// entry closer to its home than the walk has come.
    pub fn get_table_idx(&self, key: u32, hashcode: usize) -> (r: Option<usize>)
        requires
            self.wf(),
            hashcode == spec_hash_key(key),
        ensures
            match r {
                Some(i) => holds_key(self.slots_seq(), i as int, key),
                None => !self@.contains_key(key),
            },
    {
        let ghost s = self.slots@;
        let cap = self.slots.len();
        let mut idx: usize = hashcode % cap;
        let mut dist: usize = 0;
        proof {
            lemma_probe_index(hashcode, 0, cap as nat);
        }
        while dist < cap
            invariant
                s == self.slots@,
                slots_ok(s),
                hashcode == spec_hash_key(key),
                cap == s.len(),
                dist <= cap,
                dist < cap ==> idx == probe_index(hashcode, dist as nat, cap as nat),
                forall|j: nat|
                    j < dist ==> !holds_key(
                        s,
                        #[trigger] probe_index(spec_hash_key(key), j, s.len()) as int,
                        key,
                    ),
            decreases cap - dist,
        {
            let slot = self.slots[idx];
            if let Slot::Occupied(e) = slot {
                if e.hash == hashcode && e.key == key {
                    return Some(idx);
                }
                if e.probe_distance < dist {
                    proof {
                        lemma_absent(s, key, dist as nat);
                    }
                    return None;
                }
                proof {
                    assert(occupied(s, idx as int));
                    assert(!holds_key(s, probe_index(hashcode, dist as nat, cap as nat) as int, key));
                }
            } else {
                proof {
                    lemma_absent(s, key, dist as nat);
                }
                return None;
            }
            proof {
                lemma_probe_index(hashcode, dist as nat, cap as nat);
                if dist + 1 < cap {
                    lemma_probe_index(hashcode, (dist + 1) as nat, cap as nat);
                }
            }
            idx = if idx + 1 == cap {
                0
            } else {
                idx + 1
            };
            dist = dist + 1;
        }
        proof {
            lemma_absent(s, key, dist as nat);
        }
        None
    }

    /// The value stored under `key`, if any.
    pub fn lookup(&self, key: u32) -> (r: Option<u32>)
        requires
            self.wf(),
        ensures
            r == spec_lookup(self@, key),
    {
        match self.get_table_idx(key, hash_key(key)) {
            Some(i) => {
                proof {
                    lemma_view_at(self.slots@, i as int);
                }
                match &self.slots[i] {
                    Slot::Occupied(e) => Some(e.value),
                    Slot::Empty => None,
                }
            },
            None => None,
        }
    }
}

// Growing

proof fn lemma_load_monotone(len: nat, cap: nat, new_cap: nat, num: nat, den: nat)
    requires
        cap <= new_cap,
        len * den <= cap * num,
    ensures
        len * den <= new_cap * num,
{
    assert(cap * num <= new_cap * num) by (nonlinear_arith)
        requires
            cap <= new_cap,
    ;
}

proof fn lemma_load_fits(len: nat, cap: nat, num: nat, den: nat)
    requires
        0 < num <= den,
        len * den <= cap * num,
    ensures
        len <= cap,
{
    assert(len <= cap) by (nonlinear_arith)
        requires
            0 < num <= den,
            len * den <= cap * num,
    ;
}

proof fn lemma_load_shrink(len: nat, cap: nat, num: nat, den: nat)
    requires
        within_load(len + 1, cap, num, den),
    ensures
        within_load(len, cap, num, den),
{
    assert(len * den <= (len + 1) * den) by (nonlinear_arith);
}

proof fn lemma_product_fits(a: nat, b: nat)
    requires
        a <= 0x1_0000_0000_0000_0000,
        b < 0x1_0000_0000_0000_0000,
    ensures
        a * b < 0x1_0000_0000_0000_0000_0000_0000_0000_0000,
{
    assert(a * b < 0x1_0000_0000_0000_0000 * 0x1_0000_0000_0000_0000) by (nonlinear_arith)
        requires
            a <= 0x1_0000_0000_0000_0000,
            b < 0x1_0000_0000_0000_0000,
    ;
}

/// Whether `len + 1` entries fit in `cap` slots under the load factor
/// `num / den`.
fn fits_one_more(len: usize, cap: usize, num: usize, den: usize) -> (r: bool)
    ensures
        r == within_load(len as nat + 1, cap as nat, num as nat, den as nat),
{
    let n: u128 = len as u128 + 1;
    proof {
        lemma_product_fits(n as nat, den as nat);
        lemma_product_fits(cap as nat, num as nat);
    }
    n * (den as u128) <= (cap as u128) * (num as u128)
}

impl Table {
    /// The capacity the table must have before `insert` may place one more
    /// entry, or `None` when doubling cannot reach it within a `usize`.
    fn target_capacity(&self) -> (r: Option<usize>)
        requires
            self.wf(),
        ensures
            match r {
                Some(c) => c == grown_capacity(
                    self.spec_len(),
                    self.spec_capacity(),
                    self.spec_load_num(),
                    self.spec_load_den(),
                ) && c >= self.spec_capacity() && within_load(
                    self.spec_len() + 1,
                    c as nat,
                    self.spec_load_num(),
                    self.spec_load_den(),
                ),
                None => grown_capacity(
                    self.spec_len(),
                    self.spec_capacity(),
                    self.spec_load_num(),
                    self.spec_load_den(),
                ) > usize::MAX,
            },
    {
        let cap = self.slots.len();
        let mut new_cap = cap;
        while !fits_one_more(self.len, new_cap, self.load_num, self.load_den)
            invariant
                self.wf(),
                cap == self.spec_capacity(),
                cap <= new_cap,
                grown_capacity(
                    self.spec_len(),
                    new_cap as nat,
                    self.spec_load_num(),
                    self.spec_load_den(),
                ) == grown_capacity(
                    self.spec_len(),
                    cap as nat,
                    self.spec_load_num(),
                    self.spec_load_den(),
                ),
            decreases usize::MAX - new_cap,
        {
            if new_cap > usize::MAX / 2 {
                proof {
                    reveal_with_fuel(grown_capacity, 2);
                }
                return None;
            }
            new_cap = new_cap * 2;
        }
        Some(new_cap)
    }

    /// Replaces the slots by `new_cap` slots holding the same entries.
    fn grow(&mut self, new_cap: usize)
        requires
            old(self).wf(),
            old(self).spec_capacity() <= new_cap,
        ensures
            final(self).wf(),
            final(self)@ == old(self)@,
            final(self).spec_len() == old(self).spec_len(),
            final(self).spec_capacity() == new_cap,
            final(self).spec_load_num() == old(self).spec_load_num(),
            final(self).spec_load_den() == old(self).spec_load_den(),
    {
        let fresh = rehash(&self.slots, new_cap);
        proof {
            lemma_load_monotone(
                self.len as nat,
                self.slots@.len(),
                new_cap as nat,
                self.load_num as nat,
                self.load_den as nat,
            );
        }
        self.slots = fresh;
    }

    /// Stores `value` under `key`. When one more entry would raise the load
    /// factor above its maximum, the capacity is first doubled, as often as
    /// needed, and every entry is placed again.
    pub fn insert(&mut self, key: u32, value: u32) -> (r: Result<InsertOutcome, InsertError>)
        requires
            old(self).wf(),
        ensures
            final(self).wf(),
            insert_result(*old(self), *final(self), key, value, r),
            r is Ok ==> insert_layout(*old(self), *final(self), key, value),
    {
        let new_cap = match self.target_capacity() {
            Some(c) => c,
            None => return Err(InsertError::CapacityExhausted),
        };
        if new_cap != self.slots.len() {
            self.grow(new_cap);
        }
        let hashcode = hash_key(key);
        let ghost s = self.slots@;
        match self.get_table_idx(key, hashcode) {
            Some(i) => {
                proof {
                    assert(occupied(s, i as int));
                    lemma_view_at(s, i as int);
                }
                if let Slot::Occupied(e) = self.slots[i] {
                    let updated = Entry { value, ..e };
                    self.slots[i] = Slot::Occupied(updated);
                    proof {
                        let s1 = s.update(i as int, Slot::Empty);
                        lemma_view_clear(s, i as int);
                        lemma_view_fill(s1, i as int, updated);
                        assert(s1.update(i as int, Slot::Occupied(updated)) =~= self.slots@);
                        lemma_set_entry(s, i as int, updated);
                        lemma_count_update(s, i as int, Slot::Occupied(updated));
                        assert(self@ =~= old(self)@.insert(key, value));
                        assert(holds_key(s, i as int, key));
                    }
                }
                Ok(InsertOutcome::Updated)
            },
            None => {
                proof {
                    lemma_load_fits(
                        (self.len + 1) as nat,
                        s.len(),
                        self.load_num as nat,
                        self.load_den as nat,
                    );
                }
                place_entry(
                    &mut self.slots,
                    Entry { key, value, hash: hashcode, probe_distance: 0 },
                );
                self.len = self.len + 1;
                Ok(InsertOutcome::Inserted)
            },
        }
    }
}

impl Table {
    /// Removes `key` and returns its value, closing the gap by backward
    /// shifting rather than leaving a marker.
    pub fn delete(&mut self, key: u32) -> (r: Option<u32>)
        requires
            old(self).wf(),
        ensures
            final(self).wf(),
            delete_result(*old(self), *final(self), key, r),
            delete_layout(*old(self), *final(self), key, r),
    {
        let ghost s = self.slots@;
        let i = match self.get_table_idx(key, hash_key(key)) {
            Some(i) => i,
            None => {
                proof {
                    assert(self@ =~= old(self)@.remove(key));
                }
                return None;
            },
        };
        proof {
            assert(occupied(s, i as int));
            lemma_view_at(s, i as int);
            lemma_view_clear(s, i as int);
            lemma_count_update(s, i as int, Slot::Empty);
            lemma_gap_open(s, i as int);
            assert(holds_key(s, i as int, key));
        }
        if let Slot::Occupied(removed) = self.slots[i] {
            self.slots[i] = Slot::Empty;
            close_gap(&mut self.slots, i, Ghost(removed.probe_distance as nat));
            self.len = self.len - 1;
            proof {
                lemma_load_shrink(
                    self.len as nat,
                    self.slots@.len(),
                    self.load_num as nat,
                    self.load_den as nat,
                );
            }
            Some(removed.value)
        } else {
            None
        }
    }
}

} // verus!
