//! A table of remembered failures over a bank of formulas.

use vstd::prelude::*;
use vstd::relations::{sorted_by, total_ordering};

use super::bank::{extends, ids_within, lemma_picked_extends, picked, Bank};
use super::search::Key;
use crate::models::formula::Prop;

verus! {

/// A remembered failure: the numbers of the known formulas in ascending order, the
/// number of the goal, and the number of lines.
pub struct Entry {
    state: Vec<usize>,
    goal: usize,
    failed: usize,
}

/// A table of remembered failures.
pub struct Memo {
    table: Vec<Vec<Entry>>,
    map: Ghost<Map<Key, nat>>,
}

/// The ascending order of numbers.
spec fn ascending() -> spec_fn(usize, usize) -> bool {
    |x: usize, y: usize| x <= y
}

/// Whether numbers are in ascending order.
pub closed spec fn is_sorted(s: Seq<usize>) -> bool {
    sorted_by(s, ascending())
}

/// What a state and a goal are remembered by.
pub open spec fn id_key(props: Seq<Prop>, state: Seq<usize>, goal: usize) -> Key {
    (picked(props, state).to_multiset(), props[goal as int])
}

/// The slot in which a state is looked up, before the goal is counted in.
spec fn state_slot(state: Seq<usize>, slots: int) -> int
    decreases state.len(),
{
    if state.len() == 0 {
        0
    } else {
        (state_slot(state.drop_last(), slots) * 131 + state.last() as int % slots) % slots
    }
}

/// The slot in which a state and a goal are looked up.
spec fn slot_of(state: Seq<usize>, goal: usize, slots: int) -> int {
    (state_slot(state, slots) * 131 + goal as int % slots) % slots
}

/// How often a formula is picked is how often its number is given.
proof fn lemma_counts(props: Seq<Prop>, ids: Seq<usize>, id: usize)
    requires
        props.no_duplicates(),
        ids_within(ids, props.len() as int),
        id < props.len(),
    ensures
        picked(props, ids).to_multiset().count(props[id as int]) == ids.to_multiset().count(id),
    decreases ids.len(),
{
    broadcast use vstd::multiset::group_multiset_axioms;
    broadcast use vstd::seq_lib::group_to_multiset_ensures;

    if ids.len() == 0 {
        assert(picked(props, ids) =~= Seq::<Prop>::empty());
        assert(!ids.contains(id));
        assert(!picked(props, ids).contains(props[id as int]));
    } else {
        let t = ids.drop_last();
        let x = ids.last();
        assert(ids_within(t, props.len() as int)) by {
            assert forall|i: int| 0 <= i < t.len() implies (#[trigger] t[i]) < props.len() by {
                assert(t[i] == ids[i]);
            }
        }
        lemma_counts(props, t, id);
        assert(ids =~= t.push(x));
        assert(ids[ids.len() - 1] < props.len());
        assert(picked(props, ids) =~= picked(props, t).push(props[x as int]));
        vstd::seq_lib::to_multiset_build(t, x);
        vstd::seq_lib::to_multiset_build(picked(props, t), props[x as int]);
        if x != id {
            assert(props[x as int] != props[id as int]);
        }
    }
}

/// Sorted numbers that are remembered alike are the same.
proof fn lemma_same_key(props: Seq<Prop>, a: Seq<usize>, b: Seq<usize>)
    requires
        props.no_duplicates(),
        ids_within(a, props.len() as int),
        ids_within(b, props.len() as int),
        is_sorted(a),
        is_sorted(b),
        picked(props, a).to_multiset() == picked(props, b).to_multiset(),
    ensures
        a == b,
{
    broadcast use vstd::multiset::group_multiset_axioms;
    broadcast use vstd::seq_lib::group_to_multiset_ensures;

    assert(a.to_multiset() =~= b.to_multiset()) by {
        assert forall|x: usize| a.to_multiset().count(x) == b.to_multiset().count(x) by {
            if x < props.len() {
                lemma_counts(props, a, x);
                lemma_counts(props, b, x);
            } else {
                assert(!a.contains(x)) by {
                    if a.contains(x) {
                        let i = choose|i: int| 0 <= i < a.len() && a[i] == x;
                        assert(a[i] < props.len());
                    }
                }
                assert(!b.contains(x)) by {
                    if b.contains(x) {
                        let i = choose|i: int| 0 <= i < b.len() && b[i] == x;
                        assert(b[i] < props.len());
                    }
                }
            }
        }
    }
    assert(total_ordering(ascending()));
    vstd::seq_lib::lemma_sorted_unique(a, b, ascending());
}

/// Whether two lists of numbers are the same.
fn same_ids(a: &Vec<usize>, b: &Vec<usize>) -> (r: bool)
    ensures
        r == (a@ == b@),
{
    if a.len() != b.len() {
        return false;
    }
    let mut i: usize = 0;
    while i < a.len()
        invariant
            i <= a@.len(),
            a@.len() == b@.len(),
            forall|j: int| 0 <= j < i ==> a@[j] == b@[j],
        decreases a@.len() - i,
    {
        if a[i] != b[i] {
            return false;
        }
        i = i + 1;
    }
    assert(a@ =~= b@);
    true
}

/// The numbers in ascending order.
pub fn sorted_ids(bank: &Bank, ids: &Vec<usize>) -> (r: Vec<usize>)
    requires
        bank.wf(),
        ids_within(ids@, bank.props().len() as int),
    ensures
        is_sorted(r@),
        ids_within(r@, bank.props().len() as int),
        picked(bank.props(), r@).to_multiset() == picked(bank.props(), ids@).to_multiset(),
{
    let ghost props = bank.props();
    let mut r: Vec<usize> = Vec::with_capacity(ids.len());
    let mut i: usize = 0;
    assert(picked(props, r@) =~= picked(props, ids@).take(0));
    while i < ids.len()
        invariant
            i <= ids@.len(),
            props == bank.props(),
            ids_within(ids@, props.len() as int),
            is_sorted(r@),
            ids_within(r@, props.len() as int),
            picked(props, r@).to_multiset() == picked(props, ids@).take(i as int).to_multiset(),
        decreases ids@.len() - i,
    {
        let x = ids[i];
        assert(ids@[i as int] < props.len());
        let mut j: usize = r.len();
        while j > 0 && r[j - 1] > x
            invariant
                j <= r@.len(),
                forall|k: int| j <= k < r@.len() ==> r@[k] > x,
            decreases j,
        {
            j = j - 1;
        }
        let ghost before = r@;
        r.insert(j, x);
        proof {
            assert(is_sorted(r@)) by {
                let leq = ascending();
                assert forall|a: int, b: int| 0 <= a < b < r@.len() implies #[trigger] leq(
                    r@[a],
                    r@[b],
                ) by {
                    assert forall|c: int, d: int| 0 <= c < d < before.len() implies before[c]
                        <= before[d] by {
                        assert(leq(before[c], before[d]));
                    }
                    if j > 0 {
                        assert(before[j - 1] <= x);
                    }
                }
            }
            assert(picked(props, r@) =~= picked(props, before).insert(j as int, props[x as int]));
            vstd::seq_lib::to_multiset_insert(picked(props, before), j as int, props[x as int]);
            let t = picked(props, ids@);
            assert(t.take(i as int + 1) =~= t.take(i as int).push(props[x as int]));
            vstd::seq_lib::to_multiset_build(t.take(i as int), props[x as int]);
        }
        i = i + 1;
    }
    assert(picked(props, ids@).take(ids@.len() as int) =~= picked(props, ids@));
    r
}

impl Memo {
    /// What is remembered.
    pub closed spec fn map(self) -> Map<Key, nat> {
        self.map@
    }

    /// The key of an entry.
    spec fn key_at(self, props: Seq<Prop>, t: int, k: int) -> Key {
        let e = self.table@[t]@[k];
        id_key(props, e.state@, e.goal)
    }

    /// Whether there is an entry at a place.
    spec fn is_place(self, t: int, k: int) -> bool {
        0 <= t < self.table@.len() && 0 <= k < self.table@[t]@.len()
    }

    /// An entry is in order.
    spec fn entry_ok(self, props: Seq<Prop>, t: int, k: int) -> bool {
        let e = self.table@[t]@[k];
        &&& is_sorted(e.state@)
        &&& ids_within(e.state@, props.len() as int)
        &&& e.goal < props.len()
        &&& t == slot_of(e.state@, e.goal, self.table@.len() as int)
        &&& self.map@.contains_key(self.key_at(props, t, k))
        &&& self.map@[self.key_at(props, t, k)] == e.failed as nat
    }

    /// No two entries have the same key.
    spec fn keys_differ(self, props: Seq<Prop>) -> bool {
        forall|t: int, k: int, t2: int, k2: int|
            #![trigger self.key_at(props, t, k), self.key_at(props, t2, k2)]
            self.is_place(t, k) && self.is_place(t2, k2) && self.key_at(props, t, k)
                == self.key_at(props, t2, k2) ==> t == t2 && k == k2
    }

    /// The table is in order: its entries are exactly what is remembered.
    pub closed spec fn wf(self, props: Seq<Prop>) -> bool {
        &&& 0 < self.table@.len() <= 0x1000_0000
        &&& forall|t: int, k: int|
            self.is_place(t, k) ==> #[trigger] self.entry_ok(props, t, k)
        &&& self.keys_differ(props)
        &&& forall|key: Key|
            #![trigger self.map@.contains_key(key)]
            self.map@.contains_key(key) ==> exists|t: int, k: int|
                self.is_place(t, k) && #[trigger] self.key_at(props, t, k) == key
    }

    /// An empty table with the given number of slots.
    pub fn new(slots: usize, props: Ghost<Seq<Prop>>) -> (r: Memo)
        requires
            0 < slots <= 0x1000_0000,
        ensures
            r.wf(props@),
            r.map() == Map::<Key, nat>::empty(),
    {
        let mut table: Vec<Vec<Entry>> = Vec::new();
        let mut i: usize = 0;
        while i < slots
            invariant
                i <= slots,
                table@.len() == i,
                forall|s: int| 0 <= s < table@.len() ==> (#[trigger] table@[s])@.len() == 0,
            decreases slots - i,
        {
            table.push(Vec::new());
            i = i + 1;
        }
        let r = Memo { table, map: Ghost(Map::empty()) };
        assert forall|t: int, k: int| r.is_place(t, k) implies #[trigger] r.entry_ok(
            props@,
            t,
            k,
        ) by {
            assert(r.table@[t]@.len() == 0);
        }
        r
    }

    /// The table stays in order when the bank grows.
    pub proof fn lemma_extends(self, old_props: Seq<Prop>, new_props: Seq<Prop>)
        requires
            self.wf(old_props),
            extends(old_props, new_props),
        ensures
            self.wf(new_props),
    {
        assert forall|t: int, k: int| self.is_place(t, k) implies #[trigger] self.entry_ok(
            new_props,
            t,
            k,
        ) && self.key_at(new_props, t, k) == self.key_at(old_props, t, k) by {
            assert(self.entry_ok(old_props, t, k));
            lemma_picked_extends(old_props, new_props, self.table@[t]@[k].state@);
        }
        assert(self.keys_differ(new_props)) by {
            assert forall|t: int, k: int, t2: int, k2: int|
                #![trigger self.key_at(new_props, t, k), self.key_at(new_props, t2, k2)]
                self.is_place(t, k) && self.is_place(t2, k2) && self.key_at(new_props, t, k)
                    == self.key_at(new_props, t2, k2) implies t == t2 && k == k2 by {
                assert(self.entry_ok(new_props, t, k));
                assert(self.entry_ok(new_props, t2, k2));
                assert(self.key_at(old_props, t, k) == self.key_at(old_props, t2, k2));
            }
        }
        assert forall|key: Key|
            #![trigger self.map@.contains_key(key)]
            self.map@.contains_key(key) implies exists|t: int, k: int|
            self.is_place(t, k) && #[trigger] self.key_at(new_props, t, k) == key by {
            let (t, k) = choose|t: int, k: int|
                self.is_place(t, k) && #[trigger] self.key_at(old_props, t, k) == key;
            assert(self.entry_ok(new_props, t, k));
            assert(self.key_at(new_props, t, k) == key);
        }
    }

    /// The slot in which a state and a goal are looked up.
    fn slot(&self, state: &Vec<usize>, goal: usize) -> (r: usize)
        requires
            0 < self.table@.len() <= 0x1000_0000,
        ensures
            r == slot_of(state@, goal, self.table@.len() as int),
            r < self.table@.len(),
    {
        let n: u64 = self.table.len() as u64;
        let mut h: u64 = 0;
        let mut i: usize = 0;
        assert(state@.take(0) =~= Seq::<usize>::empty());
        while i < state.len()
            invariant
                i <= state@.len(),
                n == self.table@.len(),
                0 < n <= 0x1000_0000,
                h < n,
                h == state_slot(state@.take(i as int), n as int),
            decreases state@.len() - i,
        {
            let x: u64 = (state[i] as u64) % n;
            assert(state@.take(i as int + 1).drop_last() =~= state@.take(i as int));
            h = (h * 131 + x) % n;
            i = i + 1;
        }
        assert(state@.take(state@.len() as int) =~= state@);
        let g: u64 = (goal as u64) % n;
        ((h * 131 + g) % n) as usize
    }

    /// The place of an entry for a state and a goal.
    fn place(&self, bank: &Bank, state: &Vec<usize>, goal: usize) -> (r: (usize, Option<usize>))
        requires
            bank.wf(),
            self.wf(bank.props()),
            is_sorted(state@),
            ids_within(state@, bank.props().len() as int),
            goal < bank.props().len(),
        ensures
            r.0 == slot_of(state@, goal, self.table@.len() as int),
            r.0 < self.table@.len(),
            match r.1 {
                Some(k) => self.is_place(r.0 as int, k as int) && self.key_at(
                    bank.props(),
                    r.0 as int,
                    k as int,
                ) == id_key(bank.props(), state@, goal),
                None => !self.map@.contains_key(id_key(bank.props(), state@, goal)),
            },
    {
        let t = self.slot(state, goal);
        let ghost props = bank.props();
        let ghost key = id_key(props, state@, goal);
        let mut k: usize = 0;
        while k < self.table[t].len()
            invariant
                self.wf(props),
                t < self.table@.len(),
                t == slot_of(state@, goal, self.table@.len() as int),
                k <= self.table@[t as int]@.len(),
                key == id_key(props, state@, goal),
                forall|j: int|
                    0 <= j < k ==> (#[trigger] self.table@[t as int]@[j]).state@ != state@
                        || self.table@[t as int]@[j].goal != goal,
            decreases self.table@[t as int]@.len() - k,
        {
            if self.table[t][k].goal == goal && same_ids(&self.table[t][k].state, state) {
                return (t, Some(k));
            }
            k = k + 1;
        }
        proof {
            bank.lemma_distinct();
            if self.map@.contains_key(key) {
                let (t2, k2) = choose|t2: int, k2: int|
                    self.is_place(t2, k2) && #[trigger] self.key_at(props, t2, k2) == key;
                assert(self.entry_ok(props, t2, k2));
                let e = self.table@[t2]@[k2];
                lemma_same_key(props, e.state@, state@);
                assert(props[e.goal as int] == props[goal as int]);
                assert(e.goal == goal);
                assert(t2 == t);
                assert(self.table@[t as int]@[k2].state@ == state@);
            }
        }
        (t, None)
    }

    /// The number of lines with which a goal is remembered to have failed.
    pub fn get(&self, bank: &Bank, state: &Vec<usize>, goal: usize) -> (r: Option<usize>)
        requires
            bank.wf(),
            self.wf(bank.props()),
            is_sorted(state@),
            ids_within(state@, bank.props().len() as int),
            goal < bank.props().len(),
        ensures
            match r {
                Some(b) => self.map().contains_key(id_key(bank.props(), state@, goal))
                    && self.map()[id_key(bank.props(), state@, goal)] == b,
                None => !self.map().contains_key(id_key(bank.props(), state@, goal)),
            },
    {
        let (t, found) = self.place(bank, state, goal);
        match found {
            Some(k) => {
                assert(self.entry_ok(bank.props(), t as int, k as int));
                Some(self.table[t][k].failed)
            },
            None => None,
        }
    }

    /// Remembers a failure.
    pub fn put(&mut self, bank: &Bank, state: Vec<usize>, goal: usize, failed: usize)
        requires
            bank.wf(),
            old(self).wf(bank.props()),
            is_sorted(state@),
            ids_within(state@, bank.props().len() as int),
            goal < bank.props().len(),
        ensures
            final(self).wf(bank.props()),
            final(self).map() == old(self).map().insert(
                id_key(bank.props(), state@, goal),
                failed as nat,
            ),
    {
        let (t, found) = self.place(bank, &state, goal);
        let ghost props = bank.props();
        let ghost key = id_key(props, state@, goal);
        proof {
            bank.lemma_distinct();
            self.map@ = self.map@.insert(key, failed as nat);
        }
        match found {
            Some(k) => {
                self.table[t][k].failed = failed;
                proof {
                    assert forall|t2: int, k2: int|
                        self.is_place(t2, k2) implies #[trigger] self.entry_ok(props, t2, k2)
                        && self.key_at(props, t2, k2) == old(self).key_at(props, t2, k2) by {
                        assert(old(self).is_place(t2, k2));
                        assert(old(self).entry_ok(props, t2, k2));
                        assert(old(self).entry_ok(props, t as int, k as int));
                        let e = old(self).table@[t2]@[k2];
                        assert(old(self).key_at(props, t as int, k as int) == key);
                        if t2 == t && k2 == k {
                        } else {
                            assert(self.table@[t2]@[k2] == e);
                            assert(old(self).key_at(props, t2, k2) != key);
                        }
                    }
                    assert(self.keys_differ(props)) by {
                        assert forall|t1: int, k1: int, t2: int, k2: int|
                            #![trigger self.key_at(props, t1, k1), self.key_at(props, t2, k2)]
                            self.is_place(t1, k1) && self.is_place(t2, k2) && self.key_at(
                                props,
                                t1,
                                k1,
                            ) == self.key_at(props, t2, k2) implies t1 == t2 && k1 == k2 by {
                            assert(self.entry_ok(props, t1, k1));
                            assert(self.entry_ok(props, t2, k2));
                            assert(old(self).is_place(t1, k1) && old(self).is_place(t2, k2));
                            assert(old(self).key_at(props, t1, k1) == old(self).key_at(
                                props,
                                t2,
                                k2,
                            ));
                        }
                    }
                    assert forall|x: Key|
                        #![trigger self.map@.contains_key(x)]
                        self.map@.contains_key(x) implies exists|t2: int, k2: int|
                        self.is_place(t2, k2) && #[trigger] self.key_at(props, t2, k2) == x by {
                        if x != key {
                            assert(old(self).map@.contains_key(x));
                            let (t2, k2) = choose|t2: int, k2: int|
                                old(self).is_place(t2, k2) && #[trigger] old(self).key_at(
                                    props,
                                    t2,
                                    k2,
                                ) == x;
                            assert(self.is_place(t2, k2));
                            assert(self.entry_ok(props, t2, k2));
                            assert(self.key_at(props, t2, k2) == x);
                        } else {
                            assert(self.is_place(t as int, k as int));
                            assert(self.entry_ok(props, t as int, k as int));
                            assert(self.key_at(props, t as int, k as int) == x);
                        }
                    }
                }
            },
            None => {
                self.table[t].push(Entry { state, goal, failed });
                proof {
                    let n = old(self).table@[t as int]@.len() as int;
                    assert forall|t2: int, k2: int|
                        self.is_place(t2, k2) implies #[trigger] self.entry_ok(props, t2, k2) by {
                        if t2 == t && k2 == n {
                        } else {
                            assert(old(self).is_place(t2, k2));
                            assert(old(self).entry_ok(props, t2, k2));
                            assert(self.table@[t2]@[k2] == old(self).table@[t2]@[k2]);
                            assert(self.key_at(props, t2, k2) != key);
                        }
                    }
                    assert(self.is_place(t as int, n));
                    assert(self.key_at(props, t as int, n) == key);
                    assert(self.keys_differ(props)) by {
                        assert forall|t1: int, k1: int, t2: int, k2: int|
                            #![trigger self.key_at(props, t1, k1), self.key_at(props, t2, k2)]
                            self.is_place(t1, k1) && self.is_place(t2, k2) && self.key_at(
                                props,
                                t1,
                                k1,
                            ) == self.key_at(props, t2, k2) implies t1 == t2 && k1 == k2 by {
                            let new1 = t1 == t && k1 == n;
                            let new2 = t2 == t && k2 == n;
                            if !new1 {
                                assert(old(self).is_place(t1, k1));
                                assert(old(self).entry_ok(props, t1, k1));
                                assert(self.table@[t1]@[k1] == old(self).table@[t1]@[k1]);
                                assert(self.key_at(props, t1, k1) != key);
                            }
                            if !new2 {
                                assert(old(self).is_place(t2, k2));
                                assert(old(self).entry_ok(props, t2, k2));
                                assert(self.table@[t2]@[k2] == old(self).table@[t2]@[k2]);
                                assert(self.key_at(props, t2, k2) != key);
                            }
                            if !new1 && !new2 {
                                assert(old(self).key_at(props, t1, k1) == old(self).key_at(
                                    props,
                                    t2,
                                    k2,
                                ));
                            }
                        }
                    }
                    assert forall|x: Key|
                        #![trigger self.map@.contains_key(x)]
                        self.map@.contains_key(x) implies exists|t2: int, k2: int|
                        self.is_place(t2, k2) && #[trigger] self.key_at(props, t2, k2) == x by {
                        if x != key {
                            assert(old(self).map@.contains_key(x));
                            let (t2, k2) = choose|t2: int, k2: int|
                                old(self).is_place(t2, k2) && #[trigger] old(self).key_at(
                                    props,
                                    t2,
                                    k2,
                                ) == x;
                            assert(self.table@[t2]@[k2] == old(self).table@[t2]@[k2]);
                            assert(self.is_place(t2, k2) && self.key_at(props, t2, k2) == x);
                        }
                    }
                }
            },
        }
    }
}

} // verus!
