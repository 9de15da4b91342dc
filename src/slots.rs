//! Slot sequences: the entries' placement and Robin Hood order, the map they
//! hold, and the walks that place, shift back and rehash entries.

use vstd::arithmetic::div_mod::{lemma_mod_add_multiples_vanish, lemma_small_mod};
use vstd::prelude::*;

use crate::hasher::spec_hash_key;

verus! {

/// A stored key with its value, its hash code and how many slots past its
/// home slot it sits.
#[derive(Clone, Copy, Debug, PartialEq, Eq, Structural)]
pub struct Entry {
    pub key: u32,
    pub value: u32,
    pub hash: usize,
    pub probe_distance: usize,
}

/// One cell of the table.
#[derive(Clone, Copy, Debug, PartialEq, Eq, Structural)]
pub enum Slot {
    Empty,
    Occupied(Entry),
}

/// The home slot of a hash code in a table of `cap` slots.
pub open spec fn home_of(hash: usize, cap: nat) -> nat {
    (hash as nat) % cap
}

/// The slot reached `d` steps past the home slot of `hash`.
pub open spec fn probe_index(hash: usize, d: nat, cap: nat) -> nat {
    (home_of(hash, cap) + d) % cap
}

/// The slot after `i`, wrapping at the end of the table.
pub open spec fn next_index(i: int, cap: int) -> int {
    if i + 1 >= cap {
        0
    } else {
        i + 1
    }
}

/// The slot before `i`, wrapping at the start of the table.
pub open spec fn prev_index(i: int, cap: int) -> int {
    if i == 0 {
        cap - 1
    } else {
        i - 1
    }
}

pub open spec fn occupied(s: Seq<Slot>, i: int) -> bool {
    0 <= i < s.len() && s[i] is Occupied
}

pub open spec fn entry_at(s: Seq<Slot>, i: int) -> Entry {
    s[i]->Occupied_0
}

pub open spec fn holds_key(s: Seq<Slot>, i: int, k: u32) -> bool {
    occupied(s, i) && entry_at(s, i).key == k
}

/// Every entry carries the hash code of its key and sits exactly
/// `probe_distance` steps past its home slot.
pub open spec fn well_placed(s: Seq<Slot>) -> bool {
    forall|i: int|
        #![trigger occupied(s, i)]
        occupied(s, i) ==> {
            let e = entry_at(s, i);
            &&& e.hash == spec_hash_key(e.key)
            &&& e.probe_distance < s.len()
            &&& i == probe_index(e.hash, e.probe_distance as nat, s.len())
        }
}

/// No key is stored twice.
pub open spec fn unique_keys(s: Seq<Slot>) -> bool {
    forall|i: int, j: int|
        #![trigger occupied(s, i), occupied(s, j)]
        occupied(s, i) && occupied(s, j) && entry_at(s, i).key == entry_at(s, j).key ==> i == j
}

/// The Robin Hood order: an entry that is not in its home slot follows an
/// occupied slot whose entry is at most one step closer to its own home.
pub open spec fn robin_hood(s: Seq<Slot>) -> bool {
    forall|i: int|
        #![trigger occupied(s, i)]
        occupied(s, i) && entry_at(s, i).probe_distance > 0 ==> {
            let p = prev_index(i, s.len() as int);
            occupied(s, p) && entry_at(s, p).probe_distance + 1 >= entry_at(s, i).probe_distance
        }
}

pub open spec fn slots_ok(s: Seq<Slot>) -> bool {
    &&& s.len() > 0
    &&& well_placed(s)
    &&& unique_keys(s)
    &&& robin_hood(s)
}

/// The key-value pairs held by a sequence of slots.
pub open spec fn slots_view(s: Seq<Slot>) -> Map<u32, u32> {
    Map::new(
        |k: u32| exists|i: int| holds_key(s, i, k),
        |k: u32| entry_at(s, choose|i: int| holds_key(s, i, k)).value,
    )
}

pub open spec fn occupied_weight(x: Slot) -> nat {
    if x is Occupied {
        1
    } else {
        0
    }
}

pub open spec fn distance_weight(x: Slot) -> nat {
    match x {
        Slot::Occupied(e) => e.probe_distance as nat,
        Slot::Empty => 0,
    }
}

/// The sum of `f` over the slots.
pub open spec fn weight_sum(s: Seq<Slot>, f: spec_fn(Slot) -> nat) -> nat
    decreases s.len(),
{
    if s.len() == 0 {
        0
    } else {
        weight_sum(s.drop_last(), f) + f(s.last())
    }
}

/// The number of occupied slots.
pub open spec fn count_occupied(s: Seq<Slot>) -> nat {
    weight_sum(s, |x: Slot| occupied_weight(x))
}

// ---------------------------------------------------------------------------
// Index arithmetic

pub(crate) proof fn lemma_probe_index(h: usize, d: nat, cap: nat)
    requires
        cap > 0,
        d < cap,
    ensures
        probe_index(h, d, cap) as int == if home_of(h, cap) + d >= cap {
            home_of(h, cap) + d - cap
        } else {
            (home_of(h, cap) + d) as int
        },
{
    let x = home_of(h, cap) + d;
    if x >= cap {
        lemma_mod_add_multiples_vanish(x - cap, cap as int);
        lemma_small_mod((x - cap) as nat, cap);
    } else {
        lemma_small_mod(x, cap);
    }
}

/// `m` slots before slot `i`, wrapping.
pub(crate) open spec fn back_index(i: int, m: int, cap: int) -> int {
    if i >= m {
        i - m
    } else {
        i - m + cap
    }
}

/// Walking back from an entry towards its home slot, every slot is occupied
/// by an entry that is at most as many steps from its own home as the walk
/// still has to go.
pub(crate) proof fn lemma_chain(s: Seq<Slot>, i: int, m: int)
    requires
        slots_ok(s),
        occupied(s, i),
        0 <= m <= entry_at(s, i).probe_distance,
    ensures
        occupied(s, back_index(i, m, s.len() as int)),
        entry_at(s, back_index(i, m, s.len() as int)).probe_distance + m >= entry_at(
            s,
            i,
        ).probe_distance,
    decreases m,
{
    if m > 0 {
        lemma_chain(s, i, m - 1);
        let b = back_index(i, m - 1, s.len() as int);
        assert(occupied(s, b));
        assert(prev_index(b, s.len() as int) == back_index(i, m, s.len() as int));
    }
}

// ---------------------------------------------------------------------------
// The view

pub(crate) proof fn lemma_view_at(s: Seq<Slot>, i: int)
    requires
        unique_keys(s),
        occupied(s, i),
    ensures
        slots_view(s).contains_key(entry_at(s, i).key),
        slots_view(s)[entry_at(s, i).key] == entry_at(s, i).value,
{
    let k = entry_at(s, i).key;
    assert(holds_key(s, i, k));
    let j = choose|j: int| holds_key(s, j, k);
    assert(occupied(s, j) && occupied(s, i));
}

/// A key of the view is held by some slot.
pub(crate) proof fn lemma_view_witness(s: Seq<Slot>, k: u32) -> (i: int)
    requires
        slots_view(s).contains_key(k),
    ensures
        holds_key(s, i, k),
{
    choose|i: int| holds_key(s, i, k)
}

pub(crate) proof fn lemma_view_clear(s: Seq<Slot>, i: int)
    requires
        unique_keys(s),
        occupied(s, i),
    ensures
        unique_keys(s.update(i, Slot::Empty)),
        slots_view(s.update(i, Slot::Empty)) == slots_view(s).remove(entry_at(s, i).key),
{
    let t = s.update(i, Slot::Empty);
    let k0 = entry_at(s, i).key;
    assert forall|a: int, b: int|
        #![trigger occupied(t, a), occupied(t, b)]
        occupied(t, a) && occupied(t, b) && entry_at(t, a).key == entry_at(t, b).key implies a
        == b by {
        assert(occupied(s, a) && occupied(s, b));
    }
    assert forall|k: u32|
        #[trigger] slots_view(t).contains_key(k) == slots_view(s).remove(k0).contains_key(k) by {
        if slots_view(t).contains_key(k) {
            let j = lemma_view_witness(t, k);
            assert(holds_key(s, j, k));
            assert(occupied(s, j) && occupied(s, i));
        }
        if slots_view(s).remove(k0).contains_key(k) {
            let j = lemma_view_witness(s, k);
            assert(occupied(s, j) && occupied(s, i));
            assert(holds_key(t, j, k));
        }
    }
    assert forall|k: u32| #[trigger]
        slots_view(t).contains_key(k) implies slots_view(t)[k] == slots_view(s)[k] by {
        let j = lemma_view_witness(t, k);
        lemma_view_at(t, j);
        assert(occupied(s, j));
        lemma_view_at(s, j);
    }
    assert(slots_view(t) =~= slots_view(s).remove(k0));
}

pub(crate) proof fn lemma_view_fill(s: Seq<Slot>, i: int, e: Entry)
    requires
        unique_keys(s),
        0 <= i < s.len(),
        !occupied(s, i),
        !slots_view(s).contains_key(e.key),
    ensures
        unique_keys(s.update(i, Slot::Occupied(e))),
        slots_view(s.update(i, Slot::Occupied(e))) == slots_view(s).insert(e.key, e.value),
{
    let t = s.update(i, Slot::Occupied(e));
    assert forall|a: int, b: int|
        #![trigger occupied(t, a), occupied(t, b)]
        occupied(t, a) && occupied(t, b) && entry_at(t, a).key == entry_at(t, b).key implies a
        == b by {
        if a != i {
            assert(occupied(s, a));
            assert(holds_key(s, a, entry_at(s, a).key));
        }
        if b != i {
            assert(occupied(s, b));
            assert(holds_key(s, b, entry_at(s, b).key));
        }
        if a != i && b != i {
            assert(occupied(s, a) && occupied(s, b));
        }
    }
    assert(holds_key(t, i, e.key));
    assert forall|k: u32| #[trigger]
        slots_view(t).contains_key(k) == slots_view(s).insert(e.key, e.value).contains_key(k) by {
        if slots_view(t).contains_key(k) && k != e.key {
            let j = lemma_view_witness(t, k);
            assert(holds_key(s, j, k));
        }
        if slots_view(s).contains_key(k) {
            let j = lemma_view_witness(s, k);
            assert(holds_key(t, j, k));
        }
    }
    assert forall|k: u32| #[trigger]
        slots_view(t).contains_key(k) implies slots_view(t)[k] == slots_view(s).insert(
        e.key,
        e.value,
    )[k] by {
        let j = lemma_view_witness(t, k);
        lemma_view_at(t, j);
        if j != i {
            assert(occupied(s, j));
            lemma_view_at(s, j);
        }
    }
    assert(slots_view(t) =~= slots_view(s).insert(e.key, e.value));
}

// ---------------------------------------------------------------------------
// Counting

pub(crate) proof fn lemma_sum_update(s: Seq<Slot>, i: int, x: Slot, f: spec_fn(Slot) -> nat)
    requires
        0 <= i < s.len(),
    ensures
        weight_sum(s.update(i, x), f) + f(s[i]) == weight_sum(s, f) + f(x),
    decreases s.len(),
{
    let t = s.update(i, x);
    if i == s.len() - 1 {
        assert(t.drop_last() =~= s.drop_last());
    } else {
        assert(t.drop_last() =~= s.drop_last().update(i, x));
        lemma_sum_update(s.drop_last(), i, x, f);
    }
}

pub(crate) proof fn lemma_count_update(s: Seq<Slot>, i: int, x: Slot)
    requires
        0 <= i < s.len(),
    ensures
        count_occupied(s.update(i, x)) + occupied_weight(s[i]) == count_occupied(s)
            + occupied_weight(x),
{
    lemma_sum_update(s, i, x, |y: Slot| occupied_weight(y));
}

pub(crate) proof fn lemma_count_bound(s: Seq<Slot>)
    ensures
        count_occupied(s) <= s.len(),
        count_occupied(s) < s.len() ==> exists|i: int| 0 <= i < s.len() && !occupied(s, i),
        (forall|i: int| 0 <= i < s.len() ==> !occupied(s, i)) ==> count_occupied(s) == 0,
    decreases s.len(),
{
    if s.len() > 0 {
        let t = s.drop_last();
        lemma_count_bound(t);
        if count_occupied(s) < s.len() {
            if !occupied(s, s.len() - 1) {
            } else {
                let i = choose|i: int| 0 <= i < t.len() && !occupied(t, i);
                assert(!occupied(s, i));
            }
        }
        if forall|i: int| 0 <= i < s.len() ==> !occupied(s, i) {
            assert forall|i: int| 0 <= i < t.len() implies !occupied(t, i) by {
                assert(!occupied(s, i));
            }
            assert(!occupied(s, s.len() - 1));
        }
    }
}

// ---------------------------------------------------------------------------
// Searching

/// A walk from the home slot of `key` that has passed `dist` slots without
/// meeting the key, and then stops at the end of the table, at an empty slot
/// or at an entry closer to its home than `dist`, proves the key absent.
pub(crate) proof fn lemma_absent(s: Seq<Slot>, key: u32, dist: nat)
    requires
        slots_ok(s),
        dist <= s.len(),
        forall|j: nat|
            j < dist ==> !holds_key(
                s,
                #[trigger] probe_index(spec_hash_key(key), j, s.len()) as int,
                key,
            ),
        dist == s.len() || !occupied(s, probe_index(spec_hash_key(key), dist, s.len()) as int)
            || entry_at(s, probe_index(spec_hash_key(key), dist, s.len()) as int).probe_distance
            < dist,
    ensures
        !slots_view(s).contains_key(key),
{
    let h = spec_hash_key(key);
    let n = s.len();
    if slots_view(s).contains_key(key) {
        let q = lemma_view_witness(s, key);
        assert(occupied(s, q));
        let d = entry_at(s, q).probe_distance as nat;
        if d < dist {
            assert(!holds_key(s, probe_index(h, d, n) as int, key));
        } else if d > dist {
            lemma_chain(s, q, d - dist);
            lemma_probe_index(h, d, n);
            lemma_probe_index(h, dist, n);
            assert(back_index(q, d - dist, n as int) == probe_index(h, dist, n));
        }
    }
}

/// A vector of `cap` empty slots.
pub(crate) fn empty_slots(cap: usize) -> (r: Vec<Slot>)
    ensures
        r@.len() == cap,
        forall|i: int| 0 <= i < cap ==> !occupied(r@, i),
{
    let mut r: Vec<Slot> = Vec::new();
    let mut n: usize = 0;
    while n < cap
        invariant
            n <= cap,
            r@.len() == n,
            forall|i: int| 0 <= i < n ==> r@[i] is Empty,
        decreases cap - n,
    {
        r.push(Slot::Empty);
        n = n + 1;
    }
    r
}

pub(crate) proof fn lemma_empty_slots(s: Seq<Slot>)
    requires
        s.len() > 0,
        forall|i: int| 0 <= i < s.len() ==> !occupied(s, i),
    ensures
        slots_ok(s),
        count_occupied(s) == 0,
        slots_view(s) == Map::<u32, u32>::empty(),
{
    lemma_count_bound(s);
    assert forall|k: u32| !#[trigger] slots_view(s).contains_key(k) by {
        if slots_view(s).contains_key(k) {
            let i = lemma_view_witness(s, k);
        }
    }
    assert(slots_view(s) =~= Map::<u32, u32>::empty());
}

/// Putting into slot `idx` an entry that belongs there, and that is at least
/// as far from its home as the entry it replaces, keeps the slots placed and
/// in Robin Hood order, given that the slot before `idx` is close enough.
pub(crate) proof fn lemma_set_entry(s: Seq<Slot>, idx: int, x: Entry)
    requires
        s.len() > 0,
        well_placed(s),
        robin_hood(s),
        0 <= idx < s.len(),
        x.hash == spec_hash_key(x.key),
        x.probe_distance < s.len(),
        idx == probe_index(x.hash, x.probe_distance as nat, s.len()),
        x.probe_distance > 0 ==> occupied(s, prev_index(idx, s.len() as int)) && entry_at(
            s,
            prev_index(idx, s.len() as int),
        ).probe_distance + 1 >= x.probe_distance,
        occupied(s, idx) ==> entry_at(s, idx).probe_distance <= x.probe_distance,
    ensures
        well_placed(s.update(idx, Slot::Occupied(x))),
        robin_hood(s.update(idx, Slot::Occupied(x))),
{
    let t = s.update(idx, Slot::Occupied(x));
    let n = s.len() as int;
    assert forall|i: int| #[trigger] occupied(t, i) implies {
        let e = entry_at(t, i);
        &&& e.hash == spec_hash_key(e.key)
        &&& e.probe_distance < t.len()
        &&& i == probe_index(e.hash, e.probe_distance as nat, t.len())
    } by {
        if i != idx {
            assert(occupied(s, i));
        }
    }
    assert forall|i: int|
        #[trigger] occupied(t, i) && entry_at(t, i).probe_distance > 0 implies {
        let p = prev_index(i, t.len() as int);
        occupied(t, p) && entry_at(t, p).probe_distance + 1 >= entry_at(t, i).probe_distance
    } by {
        let p = prev_index(i, n);
        if i != idx {
            assert(occupied(s, i));
        }
    }
}

/// The slots after a Robin Hood walk in which candidate `c` stands at slot
/// `idx`, with at most `fuel` more slots to visit: at an empty slot the
/// candidate stays; an entry closer to its home than the candidate gives up
/// its slot and walks on as the candidate, one step farther from its home;
/// otherwise the candidate walks on one step farther from its own.
pub open spec fn walk_place(s: Seq<Slot>, c: Entry, idx: int, fuel: nat) -> Seq<Slot>
    decreases fuel,
{
    if fuel == 0 {
        s
    } else if !occupied(s, idx) {
        s.update(idx, Slot::Occupied(c))
    } else if entry_at(s, idx).probe_distance < c.probe_distance {
        let o = entry_at(s, idx);
        walk_place(
            s.update(idx, Slot::Occupied(c)),
            Entry {
                key: o.key,
                value: o.value,
                hash: o.hash,
                probe_distance: (o.probe_distance + 1) as usize,
            },
            next_index(idx, s.len() as int),
            (fuel - 1) as nat,
        )
    } else {
        walk_place(
            s,
            Entry {
                key: c.key,
                value: c.value,
                hash: c.hash,
                probe_distance: (c.probe_distance + 1) as usize,
            },
            next_index(idx, s.len() as int),
            (fuel - 1) as nat,
        )
    }
}

/// The slots after placing `e` by the Robin Hood walk from its home slot.
pub open spec fn robin_hood_insert(s: Seq<Slot>, e: Entry) -> Seq<Slot> {
    walk_place(s, e, home_of(e.hash, s.len()) as int, s.len())
}

/// Places `entry`, whose key is absent and which starts at its home slot, by
/// the Robin Hood rule: walking on from the home slot, an entry farther from
/// its home takes the slot of one closer to its own, which then walks on in
/// its place, until an empty slot is reached.
pub(crate) fn place_entry(slots: &mut Vec<Slot>, entry: Entry)
    requires
        slots_ok(old(slots)@),
        count_occupied(old(slots)@) < old(slots)@.len(),
        entry.hash == spec_hash_key(entry.key),
        entry.probe_distance == 0,
        !slots_view(old(slots)@).contains_key(entry.key),
    ensures
        final(slots)@.len() == old(slots)@.len(),
        slots_ok(final(slots)@),
        count_occupied(final(slots)@) == count_occupied(old(slots)@) + 1,
        slots_view(final(slots)@) == slots_view(old(slots)@).insert(entry.key, entry.value),
        final(slots)@ == robin_hood_insert(old(slots)@, entry),
{
    let ghost s0 = slots@;
    let ghost target = slots_view(s0).insert(entry.key, entry.value);
    let ghost result = robin_hood_insert(s0, entry);
    let cap = slots.len();
    proof {
        lemma_count_bound(s0);
    }
    let ghost e = choose|i: int| 0 <= i < s0.len() && !occupied(s0, i);
    let mut cand = entry;
    let mut idx: usize = entry.hash % cap;
    let ghost mut fuel: nat = cap as nat;
    proof {
        lemma_probe_index(entry.hash, 0, cap as nat);
    }
    loop
        invariant
            s0 == old(slots)@,
            result == robin_hood_insert(s0, entry),
            walk_place(slots@, cand, idx as int, fuel) == result,
            fuel > (if e >= idx {
                e - idx
            } else {
                e - idx + cap
            }),
            cap == s0.len(),
            target == slots_view(s0).insert(entry.key, entry.value),
            slots@.len() == cap,
            slots_ok(slots@),
            0 <= e < cap,
            !occupied(slots@, e),
            count_occupied(slots@) == count_occupied(s0),
            cand.hash == spec_hash_key(cand.key),
            cand.probe_distance < cap,
            idx == probe_index(cand.hash, cand.probe_distance as nat, cap as nat),
            cand.probe_distance > 0 ==> occupied(slots@, prev_index(idx as int, cap as int))
                && entry_at(slots@, prev_index(idx as int, cap as int)).probe_distance + 1
                >= cand.probe_distance,
            !slots_view(slots@).contains_key(cand.key),
            slots_view(slots@).insert(cand.key, cand.value) == target,
        decreases (if e >= idx {
            e - idx
        } else {
            e - idx + cap
        }),
    {
        let ghost s = slots@;
        let slot = slots[idx];
        match slot {
            Slot::Empty => {
                slots[idx] = Slot::Occupied(cand);
                proof {
                    lemma_set_entry(s, idx as int, cand);
                    lemma_view_fill(s, idx as int, cand);
                    lemma_count_update(s, idx as int, Slot::Occupied(cand));
                }
                return ;
            },
            Slot::Occupied(o) => {
                if o.probe_distance < cand.probe_distance {
                    slots[idx] = Slot::Occupied(cand);
                    proof {
                        lemma_displace(s, idx as int, cand, target);
                        fuel = (fuel - 1) as nat;
                    }
                    cand = Entry {
                        key: o.key,
                        value: o.value,
                        hash: o.hash,
                        probe_distance: o.probe_distance + 1,
                    };
                } else {
                    proof {
                        lemma_advance(s, idx as int, cand, e);
                        fuel = (fuel - 1) as nat;
                    }
                    cand.probe_distance = cand.probe_distance + 1;
                }
                idx = if idx + 1 == cap {
                    0
                } else {
                    idx + 1
                };
            },
        }
    }
}

/// The candidate moves on past an entry at least as far from its home.
pub(crate) proof fn lemma_advance(s: Seq<Slot>, idx: int, c: Entry, e: int)
    requires
        slots_ok(s),
        occupied(s, idx),
        entry_at(s, idx).probe_distance >= c.probe_distance,
        c.probe_distance < s.len(),
        idx == probe_index(c.hash, c.probe_distance as nat, s.len()),
        0 <= e < s.len(),
        !occupied(s, e),
    ensures
        c.probe_distance + 1 < s.len(),
        next_index(idx, s.len() as int) == probe_index(
            c.hash,
            (c.probe_distance + 1) as nat,
            s.len(),
        ),
{
    let cap = s.len();
    assert(occupied(s, idx));
    if c.probe_distance + 1 == cap {
        let m: int = if idx >= e {
            idx - e
        } else {
            idx - e + cap
        };
        assert(0 <= m <= entry_at(s, idx).probe_distance);
        lemma_chain(s, idx, m);
        assert(back_index(idx, m, cap as int) == e);
        assert(false);
    }
    lemma_probe_index(c.hash, c.probe_distance as nat, cap);
    lemma_probe_index(c.hash, (c.probe_distance + 1) as nat, cap);
}

/// The candidate takes the slot of an entry closer to its home, and that
/// entry becomes the candidate one slot further on.
pub(crate) proof fn lemma_displace(s: Seq<Slot>, idx: int, c: Entry, target: Map<u32, u32>)
    requires
        slots_ok(s),
        occupied(s, idx),
        entry_at(s, idx).probe_distance < c.probe_distance,
        c.hash == spec_hash_key(c.key),
        c.probe_distance < s.len(),
        idx == probe_index(c.hash, c.probe_distance as nat, s.len()),
        c.probe_distance > 0 ==> occupied(s, prev_index(idx, s.len() as int)) && entry_at(
            s,
            prev_index(idx, s.len() as int),
        ).probe_distance + 1 >= c.probe_distance,
        !slots_view(s).contains_key(c.key),
        slots_view(s).insert(c.key, c.value) == target,
    ensures
        ({
            let t = s.update(idx, Slot::Occupied(c));
            let o = entry_at(s, idx);
            let n = Entry {
                key: o.key,
                value: o.value,
                hash: o.hash,
                probe_distance: (o.probe_distance + 1) as usize,
            };
            &&& slots_ok(t)
            &&& count_occupied(t) == count_occupied(s)
            &&& n.hash == spec_hash_key(n.key)
            &&& n.probe_distance < s.len()
            &&& next_index(idx, s.len() as int) == probe_index(
                n.hash,
                n.probe_distance as nat,
                s.len(),
            )
            &&& occupied(t, prev_index(next_index(idx, s.len() as int), s.len() as int))
            &&& entry_at(
                t,
                prev_index(next_index(idx, s.len() as int), s.len() as int),
            ).probe_distance + 1 >= n.probe_distance
            &&& !slots_view(t).contains_key(n.key)
            &&& slots_view(t).insert(n.key, n.value) == target
        }),
{
    let cap = s.len();
    let o = entry_at(s, idx);
    let t = s.update(idx, Slot::Occupied(c));
    let s1 = s.update(idx, Slot::Empty);
    lemma_probe_index(o.hash, o.probe_distance as nat, cap);
    lemma_probe_index(o.hash, (o.probe_distance + 1) as nat, cap);
    lemma_view_at(s, idx);
    lemma_view_clear(s, idx);
    lemma_view_fill(s1, idx, c);
    assert(s1.update(idx, Slot::Occupied(c)) =~= t);
    lemma_set_entry(s, idx, c);
    lemma_count_update(s, idx, Slot::Occupied(c));
    assert(slots_view(t).insert(o.key, o.value) =~= target);
}

// ---------------------------------------------------------------------------
// Rehashing

/// Taking one more slot of `s` into a prefix adds its entry to the prefix's
/// view and count.
pub(crate) proof fn lemma_prefix_step(s: Seq<Slot>, i: int)
    requires
        unique_keys(s),
        0 <= i < s.len(),
    ensures
        count_occupied(s.subrange(0, i + 1)) == count_occupied(s.subrange(0, i))
            + occupied_weight(s[i]),
        count_occupied(s.subrange(0, i)) <= i,
        occupied(s, i) ==> !slots_view(s.subrange(0, i)).contains_key(entry_at(s, i).key),
        occupied(s, i) ==> slots_view(s.subrange(0, i + 1)) == slots_view(s.subrange(0, i)).insert(
            entry_at(s, i).key,
            entry_at(s, i).value,
        ),
        !occupied(s, i) ==> slots_view(s.subrange(0, i + 1)) == slots_view(s.subrange(0, i)),
{
    let a = s.subrange(0, i);
    let b = s.subrange(0, i + 1);
    assert(b.drop_last() =~= a);
    lemma_count_bound(a);
    assert forall|x: int, y: int|
        #![trigger occupied(b, x), occupied(b, y)]
        occupied(b, x) && occupied(b, y) && entry_at(b, x).key == entry_at(b, y).key implies x
        == y by {
        assert(occupied(s, x) && occupied(s, y));
    }
    assert forall|x: int, y: int|
        #![trigger occupied(a, x), occupied(a, y)]
        occupied(a, x) && occupied(a, y) && entry_at(a, x).key == entry_at(a, y).key implies x
        == y by {
        assert(occupied(s, x) && occupied(s, y));
    }
    lemma_view_push_empty(a);
    if occupied(s, i) {
        let k0 = entry_at(s, i).key;
        if slots_view(a).contains_key(k0) {
            let j = lemma_view_witness(a, k0);
            assert(occupied(s, j) && occupied(s, i));
        }
        lemma_view_fill(a.push(Slot::Empty), i, entry_at(s, i));
        assert(a.push(Slot::Empty).update(i, s[i]) =~= b);
    }
    if !occupied(s, i) {
        assert(a.push(Slot::Empty) =~= b);
    }
}

pub(crate) proof fn lemma_view_push_empty(a: Seq<Slot>)
    requires
        unique_keys(a),
    ensures
        unique_keys(a.push(Slot::Empty)),
        slots_view(a.push(Slot::Empty)) == slots_view(a),
{
    let b = a.push(Slot::Empty);
    assert forall|x: int, y: int|
        #![trigger occupied(b, x), occupied(b, y)]
        occupied(b, x) && occupied(b, y) && entry_at(b, x).key == entry_at(b, y).key implies x
        == y by {
        assert(occupied(a, x) && occupied(a, y));
    }
    assert forall|k: u32| #[trigger]
        slots_view(b).contains_key(k) == slots_view(a).contains_key(k) by {
        if slots_view(b).contains_key(k) {
            let j = lemma_view_witness(b, k);
            assert(holds_key(a, j, k));
        }
        if slots_view(a).contains_key(k) {
            let j = lemma_view_witness(a, k);
            assert(holds_key(b, j, k));
        }
    }
    assert forall|k: u32| #[trigger]
        slots_view(b).contains_key(k) implies slots_view(b)[k] == slots_view(a)[k] by {
        let j = lemma_view_witness(b, k);
        lemma_view_at(b, j);
        assert(occupied(a, j));
        lemma_view_at(a, j);
    }
    assert(slots_view(b) =~= slots_view(a));
}

/// A new slot vector of `new_cap` slots holding the entries of `old`, each
/// placed again by the Robin Hood rule from its home slot in the new size.
pub(crate) fn rehash(old: &Vec<Slot>, new_cap: usize) -> (r: Vec<Slot>)
    requires
        slots_ok(old@),
        old@.len() <= new_cap,
    ensures
        r@.len() == new_cap,
        slots_ok(r@),
        count_occupied(r@) == count_occupied(old@),
        slots_view(r@) == slots_view(old@),
{
    let mut fresh = empty_slots(new_cap);
    proof {
        lemma_empty_slots(fresh@);
        assert(old@.subrange(0, 0) =~= Seq::<Slot>::empty());
        lemma_empty_slots_view(old@.subrange(0, 0));
    }
    let mut i: usize = 0;
    while i < old.len()
        invariant
            slots_ok(old@),
            old@.len() <= new_cap,
            i <= old@.len(),
            fresh@.len() == new_cap,
            slots_ok(fresh@),
            count_occupied(fresh@) == count_occupied(old@.subrange(0, i as int)),
            slots_view(fresh@) == slots_view(old@.subrange(0, i as int)),
        decreases old@.len() - i,
    {
        proof {
            lemma_prefix_step(old@, i as int);
        }
        if let Slot::Occupied(e) = old[i] {
            proof {
                assert(occupied(old@, i as int));
            }
            place_entry(&mut fresh, Entry { probe_distance: 0, ..e });
        }
        i = i + 1;
    }
    proof {
        assert(old@.subrange(0, old@.len() as int) =~= old@);
    }
    fresh
}

pub(crate) proof fn lemma_empty_slots_view(s: Seq<Slot>)
    requires
        s.len() == 0,
    ensures
        count_occupied(s) == 0,
        slots_view(s) == Map::<u32, u32>::empty(),
{
    assert forall|k: u32| !#[trigger] slots_view(s).contains_key(k) by {
        if slots_view(s).contains_key(k) {
            let i = lemma_view_witness(s, k);
        }
    }
    assert(slots_view(s) =~= Map::<u32, u32>::empty());
}

// ---------------------------------------------------------------------------
// Deleting

/// The total distance of the entries from their home slots.
pub open spec fn distance_sum(s: Seq<Slot>) -> nat {
    weight_sum(s, |x: Slot| distance_weight(x))
}

/// The slots after closing the gap at `hole` with at most `fuel` moves:
/// while the slot after the gap holds an entry that is not in its home slot,
/// that entry moves back into the gap, one step closer to its home, and the
/// gap moves on to the slot it left.
pub open spec fn shift_back(s: Seq<Slot>, hole: int, fuel: nat) -> Seq<Slot>
    decreases fuel,
{
    let n = next_index(hole, s.len() as int);
    if fuel == 0 || !occupied(s, n) || entry_at(s, n).probe_distance == 0 {
        s
    } else {
        let y = entry_at(s, n);
        shift_back(
            s.update(
                hole,
                Slot::Occupied(
                    Entry {
                        key: y.key,
                        value: y.value,
                        hash: y.hash,
                        probe_distance: (y.probe_distance - 1) as usize,
                    },
                ),
            ).update(n, Slot::Empty),
            n,
            (fuel - 1) as nat,
        )
    }
}

/// The slots after the backward shift that closes the gap at `hole`. Each
/// move brings one entry one step closer to its home, so the total distance
/// bounds the number of moves.
pub open spec fn backward_shift(s: Seq<Slot>, hole: int) -> Seq<Slot> {
    shift_back(s, hole, distance_sum(s) + 1)
}

/// The Robin Hood order, except possibly at slot `x`.
pub(crate) open spec fn robin_hood_except(s: Seq<Slot>, x: int) -> bool {
    forall|i: int|
        #![trigger occupied(s, i)]
        i != x && occupied(s, i) && entry_at(s, i).probe_distance > 0 ==> {
            let p = prev_index(i, s.len() as int);
            occupied(s, p) && entry_at(s, p).probe_distance + 1 >= entry_at(s, i).probe_distance
        }
}

/// The state while a gap left by a removed entry moves forward: slot `hole`
/// is empty, and `hd` is the distance of the entry that last sat there.
pub(crate) open spec fn gap_ok(s: Seq<Slot>, hole: int, hd: nat) -> bool {
    let n = s.len() as int;
    let next = next_index(hole, n);
    let prev = prev_index(hole, n);
    &&& n > 0
    &&& well_placed(s)
    &&& unique_keys(s)
    &&& 0 <= hole < n
    &&& !occupied(s, hole)
    &&& robin_hood_except(s, next)
    &&& hd < n
    &&& hd > 0 ==> occupied(s, prev) && entry_at(s, prev).probe_distance + 1 >= hd
    &&& occupied(s, next) ==> entry_at(s, next).probe_distance <= hd + 1
}

pub(crate) proof fn lemma_gap_open(s: Seq<Slot>, i: int)
    requires
        slots_ok(s),
        occupied(s, i),
    ensures
        gap_ok(s.update(i, Slot::Empty), i, entry_at(s, i).probe_distance as nat),
{
    let t = s.update(i, Slot::Empty);
    let n = s.len() as int;
    lemma_view_clear(s, i);
    assert(occupied(s, i));
    assert forall|j: int| #[trigger] occupied(t, j) implies {
        let e = entry_at(t, j);
        &&& e.hash == spec_hash_key(e.key)
        &&& e.probe_distance < t.len()
        &&& j == probe_index(e.hash, e.probe_distance as nat, t.len())
    } by {
        assert(occupied(s, j));
    }
    assert forall|j: int|
        #[trigger] occupied(t, j) && j != next_index(i, n) && entry_at(t, j).probe_distance
            > 0 implies {
        let p = prev_index(j, t.len() as int);
        occupied(t, p) && entry_at(t, p).probe_distance + 1 >= entry_at(t, j).probe_distance
    } by {
        assert(occupied(s, j));
    }
    let nx = next_index(i, n);
    assert(well_placed(t));
    assert(robin_hood_except(t, nx));
    if occupied(t, nx) {
        assert(occupied(s, nx));
    }
    let pv = prev_index(i, n);
    if entry_at(s, i).probe_distance > 0 {
        assert(occupied(s, pv));
        assert(pv != i);
        assert(occupied(t, pv));
    }
}

pub(crate) proof fn lemma_gap_close(s: Seq<Slot>, hole: int, hd: nat)
    requires
        gap_ok(s, hole, hd),
        !occupied(s, next_index(hole, s.len() as int)) || entry_at(
            s,
            next_index(hole, s.len() as int),
        ).probe_distance == 0,
    ensures
        slots_ok(s),
{
    assert forall|i: int|
        #[trigger] occupied(s, i) && entry_at(s, i).probe_distance > 0 implies {
        let p = prev_index(i, s.len() as int);
        occupied(s, p) && entry_at(s, p).probe_distance + 1 >= entry_at(s, i).probe_distance
    } by {
        assert(occupied(s, i));
    }
}

/// The entry after the gap moves back into it, one step closer to its home.
pub(crate) proof fn lemma_gap_shift(s: Seq<Slot>, hole: int, hd: nat)
    requires
        gap_ok(s, hole, hd),
        occupied(s, next_index(hole, s.len() as int)),
        entry_at(s, next_index(hole, s.len() as int)).probe_distance > 0,
    ensures
        ({
            let n = s.len() as int;
            let nx = next_index(hole, n);
            let y = entry_at(s, nx);
            let moved = Entry {
                key: y.key,
                value: y.value,
                hash: y.hash,
                probe_distance: (y.probe_distance - 1) as usize,
            };
            let t = s.update(hole, Slot::Occupied(moved)).update(nx, Slot::Empty);
            &&& gap_ok(t, nx, y.probe_distance as nat)
            &&& slots_view(t) == slots_view(s)
            &&& count_occupied(t) == count_occupied(s)
            &&& distance_sum(t) + 1 == distance_sum(s)
        }),
{
    let n = s.len() as int;
    let nx = next_index(hole, n);
    let y = entry_at(s, nx);
    let moved = Entry {
        key: y.key,
        value: y.value,
        hash: y.hash,
        probe_distance: (y.probe_distance - 1) as usize,
    };
    let s1 = s.update(nx, Slot::Empty);
    let t = s.update(hole, Slot::Occupied(moved)).update(nx, Slot::Empty);
    assert(t =~= s1.update(hole, Slot::Occupied(moved)));
    assert(occupied(s, nx));
    lemma_probe_index(y.hash, y.probe_distance as nat, n as nat);
    lemma_probe_index(y.hash, (y.probe_distance - 1) as nat, n as nat);
    // the view and the counts
    lemma_view_at(s, nx);
    lemma_view_clear(s, nx);
    lemma_view_fill(s1, hole, moved);
    assert(slots_view(t) =~= slots_view(s));
    lemma_count_update(s, nx, Slot::Empty);
    lemma_count_update(s1, hole, Slot::Occupied(moved));
    lemma_sum_update(s, nx, Slot::Empty, |x: Slot| distance_weight(x));
    lemma_sum_update(s1, hole, Slot::Occupied(moved), |x: Slot| distance_weight(x));
    // placement
    assert forall|j: int| #[trigger] occupied(t, j) implies {
        let e = entry_at(t, j);
        &&& e.hash == spec_hash_key(e.key)
        &&& e.probe_distance < t.len()
        &&& j == probe_index(e.hash, e.probe_distance as nat, t.len())
    } by {
        if j != hole {
            assert(occupied(s, j));
        }
    }
    // order
    let nn = next_index(nx, n);
    assert forall|j: int|
        #[trigger] occupied(t, j) && j != nn && entry_at(t, j).probe_distance > 0 implies {
        let p = prev_index(j, t.len() as int);
        occupied(t, p) && entry_at(t, p).probe_distance + 1 >= entry_at(t, j).probe_distance
    } by {
        if j != hole {
            assert(occupied(s, j));
        }
    }
    if occupied(t, nn) && nn != hole {
        assert(occupied(s, nn));
    }
}

/// Closes the gap at `hole` by moving back, one slot each, the entries after
/// it up to the next empty slot or entry in its home slot.
pub(crate) fn close_gap(slots: &mut Vec<Slot>, hole: usize, Ghost(hd): Ghost<nat>)
    requires
        gap_ok(old(slots)@, hole as int, hd),
    ensures
        final(slots)@.len() == old(slots)@.len(),
        slots_ok(final(slots)@),
        slots_view(final(slots)@) == slots_view(old(slots)@),
        count_occupied(final(slots)@) == count_occupied(old(slots)@),
        final(slots)@ == backward_shift(old(slots)@, hole as int),
{
    let ghost s0 = slots@;
    let ghost result = backward_shift(s0, hole as int);
    let cap = slots.len();
    let mut gap = hole;
    let ghost mut hd = hd;
    loop
        invariant
            s0 == old(slots)@,
            cap == s0.len(),
            slots@.len() == cap,
            gap_ok(slots@, gap as int, hd),
            slots_view(slots@) == slots_view(s0),
            count_occupied(slots@) == count_occupied(s0),
            result == backward_shift(s0, hole as int),
            shift_back(slots@, gap as int, distance_sum(slots@) + 1) == result,
        decreases distance_sum(slots@),
    {
        let ghost s = slots@;
        let next = if gap + 1 == cap {
            0
        } else {
            gap + 1
        };
        match slots[next] {
            Slot::Empty => {
                proof {
                    lemma_gap_close(s, gap as int, hd);
                    assert(next as int == next_index(gap as int, cap as int));
                    assert(shift_back(s, gap as int, distance_sum(s) + 1) == s);
                }
                return ;
            },
            Slot::Occupied(y) => {
                if y.probe_distance == 0 {
                    proof {
                        lemma_gap_close(s, gap as int, hd);
                        assert(next as int == next_index(gap as int, cap as int));
                        assert(shift_back(s, gap as int, distance_sum(s) + 1) == s);
                    }
                    return ;
                }
                proof {
                    assert(occupied(s, next as int));
                    lemma_gap_shift(s, gap as int, hd);
                    hd = y.probe_distance as nat;
                }
                slots[gap] = Slot::Occupied(
                    Entry { probe_distance: y.probe_distance - 1, ..y },
                );
                slots[next] = Slot::Empty;
                gap = next;
            },
        }
    }
}

} // verus!
