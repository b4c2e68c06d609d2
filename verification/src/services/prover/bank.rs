//! A bank of formulas: each formula is held once, and named by a number.
//!
//! Searches compare and copy formulas all the time; over a bank both are operations on
//! numbers. The bank also keeps, for each formula, the size of its text, its truth table
//! as a word, and its one-step rewrites once they have been asked for.

use vstd::prelude::*;

use super::words::{
    column_word, bit, is_word, lemma_bits, lemma_no_bits, lemma_row_atom, lemma_row_for,
    lemma_word_kept, row,
};
use crate::models::formula::{
    all_true, atom_names, entails, eval, lemma_atom_names, lemma_eval_agree, lemma_merge_names,
    merge_names, name_views, p_and, p_iff, p_implies, p_not, p_or, views,
};
use crate::models::formula::{Formula, Prop, Valuation};
use crate::models::numbers::{bounded_sum, clamped};
use crate::models::rewriting::{
    has_part, law_rewrites_symmetric, lemma_rewrites_placed, part_of, part_rewrites, placed, rewrite_views, rewrites,
    root_rewrites, root_rewrites_of, Rewrite,
};
use crate::models::rules::equivalence::EquivalenceRule;
use crate::models::text::{binding, byte_size, guarded_size, lemma_byte_size};
use crate::services::truth_table::entails_dynamic;

verus! {

/// The main connective of a formula.
#[derive(Debug, Clone, Copy, PartialEq, Eq, Structural)]
pub enum Kind {
    Atom,
    Not,
    And,
    Or,
    Implies,
    Biconditional,
    Contradiction,
}

/// A formula in the bank: its main connective and the numbers of its parts; for an atom,
/// the index of its name. A part that is not there is 0.
#[derive(Debug, Clone, Copy, PartialEq, Eq, Structural)]
pub struct Node {
    pub kind: Kind,
    pub a: usize,
    pub b: usize,
}

/// The formula that a node stands for.
pub open spec fn shape(node: Node, names: Seq<Seq<char>>, props: Seq<Prop>) -> Prop {
    let a = node.a as int;
    let b = node.b as int;
    match node.kind {
        Kind::Atom => Prop::Atom(names[a]),
        Kind::Not => p_not(props[a]),
        Kind::And => p_and(props[a], props[b]),
        Kind::Or => p_or(props[a], props[b]),
        Kind::Implies => p_implies(props[a], props[b]),
        Kind::Biconditional => p_iff(props[a], props[b]),
        Kind::Contradiction => Prop::Contradiction,
    }
}

/// Whether the parts of a node are among the first `len` formulas and its name among the
/// first `names` names.
pub open spec fn fits(node: Node, names: int, len: int) -> bool {
    match node.kind {
        Kind::Atom => node.a < names && node.b == 0,
        Kind::Not => node.a < len && node.b == 0,
        Kind::Contradiction => node.a == 0 && node.b == 0,
        _ => node.a < len && node.b < len,
    }
}

/// A number for each connective.
pub open spec fn code(kind: Kind) -> int {
    match kind {
        Kind::Atom => 0,
        Kind::Not => 1,
        Kind::And => 2,
        Kind::Or => 3,
        Kind::Implies => 4,
        Kind::Biconditional => 5,
        Kind::Contradiction => 6,
    }
}

/// The slot in which a node is looked up.
pub open spec fn slot_of(node: Node, slots: int) -> int {
    ((node.a as int % slots) * 1_000_003 + (node.b as int % slots) * 7_919 + code(node.kind)
        * 104_729) % slots
}

/// The rewrites that a cached list stands for.
pub open spec fn list_view(l: Seq<(usize, EquivalenceRule)>, props: Seq<Prop>) -> Seq<Rewrite> {
    Seq::new(l.len(), |i: int| (props[l[i].0 as int], l[i].1))
}

/// Whether a cached list holds only formulas of the bank.
pub open spec fn list_within(l: Seq<(usize, EquivalenceRule)>, len: int) -> bool {
    forall|i: int| 0 <= i < l.len() ==> (#[trigger] l[i]).0 < len
}

/// Whether every atom of `p` is among `names`.
pub open spec fn atoms_among(p: Prop, names: Seq<Seq<char>>) -> bool {
    forall|n: Seq<char>| #[trigger] atom_names(p).contains(n) ==> names.contains(n)
}

/// A bank of formulas.
pub struct Bank {
    names: Vec<String>,
    nodes: Vec<Node>,
    props: Ghost<Seq<Prop>>,
    sizes: Vec<usize>,
    words: Vec<u64>,
    lists: Vec<Option<Vec<(usize, EquivalenceRule)>>>,
    slots: Vec<Vec<usize>>,
}

/// The formulas with the given numbers.
pub open spec fn picked(props: Seq<Prop>, ids: Seq<usize>) -> Seq<Prop> {
    Seq::new(ids.len(), |i: int| props[ids[i] as int])
}

/// Whether all of `ids` name formulas of the bank.
pub open spec fn ids_within(ids: Seq<usize>, len: int) -> bool {
    forall|i: int| 0 <= i < ids.len() ==> (#[trigger] ids[i]) < len
}

/// Whether `new` holds all formulas of `old` under their numbers.
pub open spec fn extends(old_props: Seq<Prop>, new_props: Seq<Prop>) -> bool {
    &&& old_props.len() <= new_props.len()
    &&& forall|i: int| 0 <= i < old_props.len() ==> #[trigger] new_props[i] == old_props[i]
}

/// The formulas with given numbers stay the same in a greater bank.
pub proof fn lemma_picked_extends(old_props: Seq<Prop>, new_props: Seq<Prop>, ids: Seq<usize>)
    requires
        extends(old_props, new_props),
        ids_within(ids, old_props.len() as int),
    ensures
        picked(old_props, ids) == picked(new_props, ids),
        ids_within(ids, new_props.len() as int),
{
    assert(picked(old_props, ids) =~= picked(new_props, ids));
}

/// The semantic test: whether `state` entails `goal`.
pub open spec fn plausible(state: Seq<Prop>, goal: Prop) -> bool {
    entails(state, goal)
}

impl Bank {
    /// The formulas of the bank, by number.
    pub closed spec fn props(self) -> Seq<Prop> {
        self.props@
    }

    /// The atom names of the bank.
    spec fn name_list(self) -> Seq<Seq<char>> {
        name_views(self.names@)
    }

    /// Every node stands for its formula.
    spec fn nodes_ok(self) -> bool {
        &&& self.nodes@.len() == self.props@.len()
        &&& forall|i: int|
            0 <= i < self.nodes@.len() ==> fits(
                #[trigger] self.nodes@[i],
                self.names@.len() as int,
                i,
            ) && self.props@[i] == shape(self.nodes@[i], self.name_list(), self.props@)
    }

    /// Every formula can be found by its slot.
    spec fn slots_ok(self) -> bool {
        &&& 0 < self.slots@.len() <= 0x1_0000_0000
        &&& forall|i: int|
            0 <= i < self.nodes@.len() ==> self.slots@[slot_of(
                #[trigger] self.nodes@[i],
                self.slots@.len() as int,
            )]@.contains(i as usize)
        &&& forall|s: int, k: int|
            0 <= s < self.slots@.len() && 0 <= k < self.slots@[s]@.len() ==> (
            #[trigger] self.slots@[s]@[k]) < self.nodes@.len()
        &&& self.nodes@.len() <= usize::MAX
    }

    /// What is kept for each formula is right.
    spec fn caches_ok(self) -> bool {
        &&& self.sizes@.len() == self.props@.len()
        &&& self.words@.len() == self.props@.len()
        &&& self.lists@.len() == self.props@.len()
        &&& forall|i: int|
            0 <= i < self.props@.len() ==> (#[trigger] self.sizes@[i]) == clamped(
                byte_size(self.props@[i]),
            )
        &&& forall|i: int|
            0 <= i < self.props@.len() && self.names@.len() <= 6 ==> is_word(
                #[trigger] self.words@[i],
                self.props@[i],
                self.name_list(),
            )
        &&& forall|i: int|
            0 <= i < self.props@.len() ==> match #[trigger] self.lists@[i] {
                Some(l) => list_within(l@, self.props@.len() as int) && list_view(l@, self.props@)
                    == rewrites(self.props@[i]),
                None => true,
            }
    }

    /// The atoms of the formulas are the names.
    spec fn atoms_ok(self) -> bool {
        &&& self.name_list().no_duplicates()
        &&& forall|i: int|
            0 <= i < self.props@.len() ==> atoms_among(#[trigger] self.props@[i], self.name_list())
    }

    /// The bank is in order: each formula is there once, under a node that stands for it.
    pub closed spec fn wf(self) -> bool {
        &&& self.nodes_ok()
        &&& self.slots_ok()
        &&& self.caches_ok()
        &&& self.atoms_ok()
        &&& self.props@.no_duplicates()
    }

    /// Different numbers name different formulas.
    pub proof fn lemma_distinct(self)
        requires
            self.wf(),
        ensures
            self.props().no_duplicates(),
    {
    }

    /// An empty bank with the given number of slots.
    pub fn new(slots: usize) -> (r: Bank)
        requires
            0 < slots <= 0x1_0000_0000,
        ensures
            r.wf(),
            r.props() == Seq::<Prop>::empty(),
    {
        let mut table: Vec<Vec<usize>> = Vec::new();
        let mut i: usize = 0;
        while i < slots
            invariant
                i <= slots,
                table@.len() == i,
                forall|s: int| 0 <= s < table@.len() ==> (#[trigger] table@[s])@.len() == 0,
            decreases slots - i,
        {
            table.push(Vec::new());
            i = i + 1;
        }
        Bank {
            names: Vec::new(),
            nodes: Vec::new(),
            props: Ghost(Seq::empty()),
            sizes: Vec::new(),
            words: Vec::new(),
            lists: Vec::new(),
            slots: table,
        }
    }

    /// How many formulas the bank holds.
    pub fn len(&self) -> (r: usize)
        requires
            self.wf(),
        ensures
            r == self.props().len(),
    {
        self.nodes.len()
    }

    /// The node with the given number.
    pub fn node(&self, id: usize) -> (r: Node)
        requires
            self.wf(),
            id < self.props().len(),
        ensures
            r.kind is Not ==> r.a < id && self.props()[id as int] == p_not(
                self.props()[r.a as int],
            ),
            r.kind is And ==> r.a < id && r.b < id && self.props()[id as int] == p_and(
                self.props()[r.a as int],
                self.props()[r.b as int],
            ),
            r.kind is Or ==> r.a < id && r.b < id && self.props()[id as int] == p_or(
                self.props()[r.a as int],
                self.props()[r.b as int],
            ),
            r.kind is Implies ==> r.a < id && r.b < id && self.props()[id as int] == p_implies(
                self.props()[r.a as int],
                self.props()[r.b as int],
            ),
            r.kind is Biconditional ==> r.a < id && r.b < id && self.props()[id as int] == p_iff(
                self.props()[r.a as int],
                self.props()[r.b as int],
            ),
            r.kind is Contradiction ==> self.props()[id as int] == Prop::Contradiction,
            r.kind is Atom ==> self.props()[id as int] is Atom,
    {
        self.nodes[id]
    }

    /// The size of the text of a formula.
    pub fn size(&self, id: usize) -> (r: usize)
        requires
            self.wf(),
            id < self.props().len(),
        ensures
            r == clamped(byte_size(self.props()[id as int])),
    {
        self.sizes[id]
    }

    /// The slot in which a node is looked up.
    fn slot(&self, node: Node) -> (r: usize)
        requires
            0 < self.slots@.len() <= 0x1_0000_0000,
        ensures
            r == slot_of(node, self.slots@.len() as int),
            r < self.slots@.len(),
    {
        let k: u64 = match node.kind {
            Kind::Atom => 0,
            Kind::Not => 1,
            Kind::And => 2,
            Kind::Or => 3,
            Kind::Implies => 4,
            Kind::Biconditional => 5,
            Kind::Contradiction => 6,
        };
        let n: u64 = self.slots.len() as u64;
        let a: u64 = (node.a as u64) % n;
        let b: u64 = (node.b as u64) % n;
        assert(k == code(node.kind));
        ((a * 1_000_003 + b * 7_919 + k * 104_729) % n) as usize
    }

    /// Two nodes that stand for the same formula are the same node.
    proof fn lemma_same_node(self, i: int, node: Node)
        requires
            self.wf(),
            0 <= i < self.nodes@.len(),
            fits(node, self.names@.len() as int, self.props@.len() as int),
            self.props@[i] == shape(node, self.name_list(), self.props@),
        ensures
            self.nodes@[i] == node,
    {
        let m = self.nodes@[i];
        let names = self.name_list();
        assert(fits(m, self.names@.len() as int, i));
        assert(shape(m, names, self.props@) == shape(node, names, self.props@));
        assert(m.kind == node.kind);
        if m.kind == Kind::Atom {
            assert(names[m.a as int] == names[node.a as int]);
            assert(m.a == node.a);
        } else if m.kind == Kind::Contradiction {
        } else {
            assert(self.props@[m.a as int] == self.props@[node.a as int]);
            assert(m.a == node.a);
            if m.kind != Kind::Not {
                assert(self.props@[m.b as int] == self.props@[node.b as int]);
                assert(m.b == node.b);
            }
        }
    }

    /// The size of the text of the formula of a node.
    fn node_size(&self, node: Node) -> (r: usize)
        requires
            self.wf(),
            fits(node, self.names@.len() as int, self.props@.len() as int),
        ensures
            r == clamped(byte_size(shape(node, self.name_list(), self.props@))),
    {
        proof {
            lemma_byte_size(shape(node, self.name_list(), self.props@));
        }
        match node.kind {
            Kind::Atom => self.names[node.a].as_str().as_bytes().len(),
            Kind::Contradiction => 1,
            Kind::Not => bounded_sum(1, self.part_size(node.a, 3)),
            Kind::And => bounded_sum(
                bounded_sum(self.part_size(node.a, 3), 3),
                self.part_size(node.b, 3),
            ),
            Kind::Or => bounded_sum(
                bounded_sum(self.part_size(node.a, 2), 3),
                self.part_size(node.b, 2),
            ),
            Kind::Implies => bounded_sum(
                bounded_sum(self.part_size(node.a, 1), 3),
                self.part_size(node.b, 1),
            ),
            Kind::Biconditional => bounded_sum(
                bounded_sum(self.part_size(node.a, 0), 5),
                self.part_size(node.b, 0),
            ),
        }
    }

    /// The size of the text of a formula as a part of another.
    fn part_size(&self, id: usize, limit: u8) -> (r: usize)
        requires
            self.wf(),
            id < self.props@.len(),
        ensures
            r == clamped(guarded_size(self.props@[id as int], limit as int)),
    {
        let tight: u8 = match self.nodes[id].kind {
            Kind::Atom | Kind::Contradiction => 5,
            Kind::Not => 4,
            Kind::And => 3,
            Kind::Or => 2,
            Kind::Implies => 1,
            Kind::Biconditional => 0,
        };
        assert(tight == binding(self.props@[id as int]));
        if tight <= limit {
            bounded_sum(self.sizes[id], 2)
        } else {
            self.sizes[id]
        }
    }

    /// The truth table of the formula of a node.
    fn node_word(&self, node: Node) -> (r: u64)
        requires
            self.wf(),
            fits(node, self.names@.len() as int, self.props@.len() as int),
        ensures
            self.names@.len() <= 6 ==> is_word(
                r,
                shape(node, self.name_list(), self.props@),
                self.name_list(),
            ),
    {
        let ghost p = shape(node, self.name_list(), self.props@);
        let ghost names = self.name_list();
        let w: u64 = match node.kind {
            Kind::Atom => column_word(node.a),
            Kind::Contradiction => 0,
            Kind::Not => !self.words[node.a],
            Kind::And => self.words[node.a] & self.words[node.b],
            Kind::Or => self.words[node.a] | self.words[node.b],
            Kind::Implies => !self.words[node.a] | self.words[node.b],
            Kind::Biconditional => !(self.words[node.a] ^ self.words[node.b]),
        };
        proof {
            if self.names@.len() <= 6 {
                assert forall|r: u64| r < 64 implies #[trigger] bit(w, r) == eval(
                    p,
                    row(names, r),
                ) by {
                    match node.kind {
                        Kind::Atom => {
                            lemma_row_atom(names, node.a as int, r);
                        },
                        Kind::Contradiction => {
                            lemma_bits(0, 0, r);
                        },
                        Kind::Not => {
                            let x = self.words@[node.a as int];
                            assert(is_word(x, self.props@[node.a as int], names));
                            lemma_bits(x, x, r);
                        },
                        _ => {
                            let x = self.words@[node.a as int];
                            let y = self.words@[node.b as int];
                            assert(is_word(x, self.props@[node.a as int], names));
                            assert(is_word(y, self.props@[node.b as int], names));
                            lemma_bits(x, y, r);
                        },
                    }
                }
            }
        }
        w
    }

    /// The atoms of the formula of a node are names of the bank.
    proof fn lemma_node_atoms(self, node: Node)
        requires
            self.wf(),
            fits(node, self.names@.len() as int, self.props@.len() as int),
        ensures
            atoms_among(shape(node, self.name_list(), self.props@), self.name_list()),
    {
        let p = shape(node, self.name_list(), self.props@);
        let names = self.name_list();
        assert forall|n: Seq<char>| #[trigger] atom_names(p).contains(n) implies names.contains(
            n,
        ) by {
            match node.kind {
                Kind::Atom => {
                    assert(names[node.a as int] == n);
                },
                Kind::Contradiction => {},
                Kind::Not => {
                    assert(atom_names(p) == atom_names(self.props@[node.a as int]));
                    assert(atoms_among(self.props@[node.a as int], names));
                },
                _ => {
                    let x = self.props@[node.a as int];
                    let y = self.props@[node.b as int];
                    lemma_atom_names(x);
                    lemma_merge_names(atom_names(x), atom_names(y));
                    assert(atom_names(p) == merge_names(atom_names(x), atom_names(y)));
                    assert(atoms_among(x, names));
                    assert(atoms_among(y, names));
                },
            }
        }
    }

    /// The number of the formula of a node, which is added where it is not there.
    #[verifier::rlimit(40)]
    fn intern_node(&mut self, node: Node) -> (r: usize)
        requires
            old(self).wf(),
            fits(node, old(self).names@.len() as int, old(self).props@.len() as int),
        ensures
            final(self).wf(),
            final(self).names@ == old(self).names@,
            extends(old(self).props@, final(self).props@),
            r < final(self).props@.len(),
            final(self).props@[r as int] == shape(
                node,
                old(self).name_list(),
                old(self).props@,
            ),
    {
        let s = self.slot(node);
        let mut k: usize = 0;
        while k < self.slots[s].len()
            invariant
                self.wf(),
                *self == *old(self),
                s < self.slots@.len(),
                s == slot_of(node, self.slots@.len() as int),
                k <= self.slots@[s as int]@.len(),
                fits(node, self.names@.len() as int, self.props@.len() as int),
                forall|j: int|
                    0 <= j < k ==> self.nodes@[(#[trigger] self.slots@[s as int]@[j]) as int] != node,
            decreases self.slots@[s as int]@.len() - k,
        {
            let i = self.slots[s][k];
            assert(self.slots@[s as int]@[k as int] < self.nodes@.len());
            if self.nodes[i] == node {
                return i;
            }
            k = k + 1;
        }
        let ghost p = shape(node, self.name_list(), self.props@);
        proof {
            assert forall|i: int| 0 <= i < self.props@.len() implies #[trigger] self.props@[i]
                != p by {
                if self.props@[i] == p {
                    self.lemma_same_node(i, node);
                    assert(self.slots@[slot_of(
                        self.nodes@[i],
                        self.slots@.len() as int,
                    )]@.contains(i as usize));
                    let j = choose|j: int|
                        0 <= j < self.slots@[s as int]@.len() && self.slots@[s as int]@[j]
                            == i as usize;
                    assert(self.nodes@[self.slots@[s as int]@[j] as int] != node);
                }
            }
            self.lemma_node_atoms(node);
        }
        let size = self.node_size(node);
        let word = self.node_word(node);
        let id = self.nodes.len();
        self.nodes.push(node);
        self.sizes.push(size);
        self.words.push(word);
        self.lists.push(None);
        self.slots[s].push(id);
        let count = self.nodes.len();
        assert(self.nodes@.len() == count);
        proof {
            self.props@ = self.props@.push(p);
            let before = old(self).props@;
            let names = self.name_list();
            assert forall|m: Node|
                fits(m, self.names@.len() as int, before.len() as int) implies #[trigger] shape(
                m,
                names,
                before,
            ) == shape(m, names, self.props@) by {}
            assert forall|i: int| 0 <= i < self.nodes@.len() implies fits(
                #[trigger] self.nodes@[i],
                self.names@.len() as int,
                i,
            ) && self.props@[i] == shape(self.nodes@[i], names, self.props@) by {
                if i < before.len() {
                    assert(old(self).nodes@[i] == self.nodes@[i]);
                    assert(shape(self.nodes@[i], names, before) == shape(
                        self.nodes@[i],
                        names,
                        self.props@,
                    ));
                } else {
                    assert(shape(node, names, before) == shape(node, names, self.props@));
                }
            }
            assert(self.nodes_ok());
            assert(self.slots@[s as int]@ == old(self).slots@[s as int]@.push(id));
            assert forall|i: int| 0 <= i < self.nodes@.len() implies self.slots@[slot_of(
                #[trigger] self.nodes@[i],
                self.slots@.len() as int,
            )]@.contains(i as usize) by {
                let t = slot_of(self.nodes@[i], self.slots@.len() as int);
                if i < before.len() {
                    assert(old(self).nodes@[i] == self.nodes@[i]);
                    assert(old(self).slots@[t]@.contains(i as usize));
                    let j = choose|j: int|
                        0 <= j < old(self).slots@[t]@.len() && old(self).slots@[t]@[j]
                            == i as usize;
                    assert(self.slots@[t]@[j] == i as usize);
                } else {
                    assert(self.slots@[s as int]@[old(self).slots@[s as int]@.len() as int]
                        == id);
                }
            }
            assert forall|t: int, j: int|
                0 <= t < self.slots@.len() && 0 <= j < self.slots@[t]@.len() implies (
            #[trigger] self.slots@[t]@[j]) < self.nodes@.len() by {
                if t == s && j == old(self).slots@[s as int]@.len() {
                } else {
                    assert(old(self).slots@[t]@[j] < before.len());
                }
            }
            assert(self.slots_ok());
            assert forall|i: int| 0 <= i < self.props@.len() implies match #[trigger] self.lists@[i] {
                Some(l) => list_within(l@, self.props@.len() as int) && list_view(l@, self.props@)
                    == rewrites(self.props@[i]),
                None => true,
            } by {
                if i < before.len() {
                    assert(old(self).lists@[i] == self.lists@[i]);
                    match self.lists@[i] {
                        Some(l) => {
                            assert(list_within(l@, before.len() as int));
                            assert(list_view(l@, self.props@) =~= list_view(l@, before));
                        },
                        None => {},
                    }
                }
            }
            assert forall|i: int| 0 <= i < self.props@.len() implies (#[trigger] self.sizes@[i])
                == clamped(byte_size(self.props@[i])) by {
                if i < before.len() {
                    assert(old(self).sizes@[i] == self.sizes@[i]);
                }
            }
            assert forall|i: int|
                0 <= i < self.props@.len() && self.names@.len() <= 6 implies is_word(
                #[trigger] self.words@[i],
                self.props@[i],
                names,
            ) by {
                if i < before.len() {
                    assert(old(self).words@[i] == self.words@[i]);
                }
            }
            assert(self.caches_ok());
            assert forall|i: int| 0 <= i < self.props@.len() implies atoms_among(
                #[trigger] self.props@[i],
                names,
            ) by {
                if i < before.len() {
                    assert(atoms_among(old(self).props@[i], names));
                }
            }
            assert(self.atoms_ok());
            assert forall|i: int, j: int|
                0 <= i < self.props@.len() && 0 <= j < self.props@.len() && i
                    != j implies self.props@[i] != self.props@[j] by {
                if i < before.len() && j < before.len() {
                    assert(before[i] != before[j]);
                } else if i < before.len() {
                    assert(before[i] != p);
                } else {
                    assert(before[j] != p);
                }
            }
        }
        id
    }

    /// The index of a name, which is added where it is not there.
    fn intern_name(&mut self, name: &String) -> (r: usize)
        requires
            old(self).wf(),
        ensures
            final(self).wf(),
            final(self).props@ == old(self).props@,
            r < final(self).names@.len(),
            final(self).name_list()[r as int] == name@,
    {
        let mut i: usize = 0;
        while i < self.names.len()
            invariant
                self.wf(),
                *self == *old(self),
                i <= self.names@.len(),
                forall|j: int| 0 <= j < i ==> (#[trigger] self.names@[j])@ != name@,
            decreases self.names@.len() - i,
        {
            if self.names[i] == *name {
                return i;
            }
            i = i + 1;
        }
        self.names.push(name.clone());
        proof {
            let before = old(self).name_list();
            let names = self.name_list();
            assert(names =~= before.push(name@));
            assert(names.no_duplicates()) by {
                assert forall|j: int, k: int|
                    0 <= j < names.len() && 0 <= k < names.len() && j != k implies names[j]
                    != names[k] by {
                    if j < before.len() && k < before.len() {
                        assert(before[j] != before[k]);
                    } else if j < before.len() {
                        assert(old(self).names@[j]@ != name@);
                    } else {
                        assert(old(self).names@[k]@ != name@);
                    }
                }
            }
            assert forall|j: int| 0 <= j < self.nodes@.len() implies fits(
                #[trigger] self.nodes@[j],
                self.names@.len() as int,
                j,
            ) && self.props@[j] == shape(self.nodes@[j], names, self.props@) by {
                assert(fits(old(self).nodes@[j], before.len() as int, j));
            }
            assert forall|j: int|
                0 <= j < self.props@.len() && self.names@.len() <= 6 implies is_word(
                #[trigger] self.words@[j],
                self.props@[j],
                names,
            ) by {
                assert(is_word(old(self).words@[j], self.props@[j], before));
                assert(atoms_among(old(self).props@[j], before));
                lemma_word_kept(self.words@[j], self.props@[j], before, name@);
            }
            assert forall|j: int| 0 <= j < self.props@.len() implies atoms_among(
                #[trigger] self.props@[j],
                names,
            ) by {
                assert(atoms_among(old(self).props@[j], before));
                assert forall|n: Seq<char>| #[trigger] atom_names(self.props@[j]).contains(
                    n,
                ) implies names.contains(n) by {
                    let k = choose|k: int| 0 <= k < before.len() && before[k] == n;
                    assert(names[k] == n);
                }
            }
        }
        i
    }

    /// The number of `~a`.
    pub fn not(&mut self, a: usize) -> (r: usize)
        requires
            old(self).wf(),
            a < old(self).props().len(),
        ensures
            final(self).wf(),
            extends(old(self).props(), final(self).props()),
            r < final(self).props().len(),
            final(self).props()[r as int] == p_not(old(self).props()[a as int]),
    {
        self.intern_node(Node { kind: Kind::Not, a, b: 0 })
    }

    /// The number of `a . b`.
    pub fn and(&mut self, a: usize, b: usize) -> (r: usize)
        requires
            old(self).wf(),
            a < old(self).props().len(),
            b < old(self).props().len(),
        ensures
            final(self).wf(),
            extends(old(self).props(), final(self).props()),
            r < final(self).props().len(),
            final(self).props()[r as int] == p_and(
                old(self).props()[a as int],
                old(self).props()[b as int],
            ),
    {
        self.intern_node(Node { kind: Kind::And, a, b })
    }

    /// The number of `a v b`.
    pub fn or(&mut self, a: usize, b: usize) -> (r: usize)
        requires
            old(self).wf(),
            a < old(self).props().len(),
            b < old(self).props().len(),
        ensures
            final(self).wf(),
            extends(old(self).props(), final(self).props()),
            r < final(self).props().len(),
            final(self).props()[r as int] == p_or(
                old(self).props()[a as int],
                old(self).props()[b as int],
            ),
    {
        self.intern_node(Node { kind: Kind::Or, a, b })
    }

    /// The number of `a > b`.
    pub fn implies(&mut self, a: usize, b: usize) -> (r: usize)
        requires
            old(self).wf(),
            a < old(self).props().len(),
            b < old(self).props().len(),
        ensures
            final(self).wf(),
            extends(old(self).props(), final(self).props()),
            r < final(self).props().len(),
            final(self).props()[r as int] == p_implies(
                old(self).props()[a as int],
                old(self).props()[b as int],
            ),
    {
        self.intern_node(Node { kind: Kind::Implies, a, b })
    }

    /// The number of `⊥`.
    pub fn contradiction(&mut self) -> (r: usize)
        requires
            old(self).wf(),
        ensures
            final(self).wf(),
            extends(old(self).props(), final(self).props()),
            r < final(self).props().len(),
            final(self).props()[r as int] == Prop::Contradiction,
    {
        self.intern_node(Node { kind: Kind::Contradiction, a: 0, b: 0 })
    }

    /// The number of a formula, which is added where it is not there.
    pub fn intern(&mut self, f: &Formula) -> (r: usize)
        requires
            old(self).wf(),
        ensures
            final(self).wf(),
            extends(old(self).props(), final(self).props()),
            r < final(self).props().len(),
            final(self).props()[r as int] == f@,
        decreases f,
    {
        match f {
            Formula::Atom(name) => {
                let a = self.intern_name(name);
                self.intern_node(Node { kind: Kind::Atom, a, b: 0 })
            },
            Formula::Contradiction => self.contradiction(),
            Formula::Not(x) => {
                let a = self.intern(x);
                self.not(a)
            },
            Formula::And(x, y) => {
                let a = self.intern(x);
                let b = self.intern(y);
                self.and(a, b)
            },
            Formula::Or(x, y) => {
                let a = self.intern(x);
                let b = self.intern(y);
                self.or(a, b)
            },
            Formula::Implies(x, y) => {
                let a = self.intern(x);
                let b = self.intern(y);
                self.implies(a, b)
            },
            Formula::Biconditional(x, y) => {
                let a = self.intern(x);
                let b = self.intern(y);
                self.intern_node(Node { kind: Kind::Biconditional, a, b })
            },
        }
    }

    /// The numbers of a list of formulas.
    pub fn intern_all(&mut self, fs: &[Formula]) -> (r: Vec<usize>)
        requires
            old(self).wf(),
        ensures
            final(self).wf(),
            extends(old(self).props(), final(self).props()),
            ids_within(r@, final(self).props().len() as int),
            picked(final(self).props(), r@) == views(fs@),
    {
        let mut r: Vec<usize> = Vec::new();
        let mut i: usize = 0;
        assert(picked(self.props(), r@) =~= views(fs@).take(0));
        while i < fs.len()
            invariant
                i <= fs@.len(),
                self.wf(),
                extends(old(self).props(), self.props()),
                ids_within(r@, self.props().len() as int),
                picked(self.props(), r@) == views(fs@).take(i as int),
            decreases fs@.len() - i,
        {
            let ghost before = self.props();
            let ghost ids = r@;
            let id = self.intern(&fs[i]);
            r.push(id);
            proof {
                lemma_picked_extends(before, self.props(), ids);
                assert(picked(self.props(), r@) =~= picked(self.props(), ids).push(
                    fs@[i as int]@,
                ));
                assert(views(fs@).take(i as int + 1) =~= views(fs@).take(i as int).push(
                    fs@[i as int]@,
                ));
            }
            i = i + 1;
        }
        assert(views(fs@).take(fs@.len() as int) =~= views(fs@));
        r
    }

    /// The formula with the given number.
    pub fn formula(&self, id: usize) -> (r: Formula)
        requires
            self.wf(),
            id < self.props().len(),
        ensures
            r@ == self.props()[id as int],
        decreases id,
    {
        let node = self.nodes[id];
        assert(fits(self.nodes@[id as int], self.names@.len() as int, id as int));
        match node.kind {
            Kind::Atom => Formula::Atom(self.names[node.a].clone()),
            Kind::Contradiction => Formula::Contradiction,
            Kind::Not => Formula::Not(Box::new(self.formula(node.a))),
            Kind::And => Formula::And(
                Box::new(self.formula(node.a)),
                Box::new(self.formula(node.b)),
            ),
            Kind::Or => Formula::Or(
                Box::new(self.formula(node.a)),
                Box::new(self.formula(node.b)),
            ),
            Kind::Implies => Formula::Implies(
                Box::new(self.formula(node.a)),
                Box::new(self.formula(node.b)),
            ),
            Kind::Biconditional => Formula::Biconditional(
                Box::new(self.formula(node.a)),
                Box::new(self.formula(node.b)),
            ),
        }
    }

    /// The formulas with the given numbers.
    pub fn formulas(&self, ids: &Vec<usize>) -> (r: Vec<Formula>)
        requires
            self.wf(),
            ids_within(ids@, self.props().len() as int),
        ensures
            views(r@) == picked(self.props(), ids@),
    {
        let mut r: Vec<Formula> = Vec::new();
        let mut i: usize = 0;
        while i < ids.len()
            invariant
                i <= ids@.len(),
                self.wf(),
                ids_within(ids@, self.props().len() as int),
                r@.len() == i,
                forall|j: int| 0 <= j < i ==> (#[trigger] r@[j])@ == self.props()[ids@[j] as int],
            decreases ids@.len() - i,
        {
            assert(ids@[i as int] < self.props().len());
            r.push(self.formula(ids[i]));
            i = i + 1;
        }
        assert(views(r@) =~= picked(self.props(), ids@));
        r
    }

    /// Whether the formulas of `state` entail `goal`.
    pub fn plausible(&self, state: &Vec<usize>, goal: usize) -> (r: bool)
        requires
            self.wf(),
            ids_within(state@, self.props().len() as int),
            goal < self.props().len(),
        ensures
            r == plausible(picked(self.props(), state@), self.props()[goal as int]),
    {
        let ghost sv = picked(self.props(), state@);
        let ghost g = self.props()[goal as int];
        if self.names.len() > 6 {
            let fs = self.formulas(state);
            let f = self.formula(goal);
            return entails_dynamic(&fs, &f);
        }
        let ghost names = self.name_list();
        let mut acc: u64 = u64::MAX;
        let mut i: usize = 0;
        proof {
            assert forall|r: u64| r < 64 implies #[trigger] bit(acc, r) == all_true(
                sv.take(0),
                row(names, r),
            ) by {
                lemma_bits(0, 0, r);
            }
        }
        while i < state.len()
            invariant
                i <= state@.len(),
                self.wf(),
                self.names@.len() <= 6,
                names == self.name_list(),
                ids_within(state@, self.props().len() as int),
                sv == picked(self.props(), state@),
                forall|r: u64|
                    r < 64 ==> #[trigger] bit(acc, r) == all_true(
                        sv.take(i as int),
                        row(names, r),
                    ),
            decreases state@.len() - i,
        {
            let ghost before = acc;
            assert(state@[i as int] < self.props().len());
            let w = self.words[state[i]];
            acc = acc & w;
            proof {
                assert(is_word(w, self.props@[state@[i as int] as int], names));
                assert forall|r: u64| r < 64 implies #[trigger] bit(acc, r) == all_true(
                    sv.take(i as int + 1),
                    row(names, r),
                ) by {
                    lemma_bits(before, w, r);
                    let s = sv.take(i as int);
                    let t = sv.take(i as int + 1);
                    let v = row(names, r);
                    assert(t =~= s.push(sv[i as int]));
                    assert(bit(before, r) == all_true(s, v));
                    assert(bit(w, r) == eval(sv[i as int], v));
                    if all_true(t, v) {
                        assert forall|k: int| 0 <= k < s.len() implies eval(
                            #[trigger] s[k],
                            v,
                        ) by {
                            assert(s[k] == t[k]);
                        }
                        assert(eval(t[i as int], v));
                    }
                }
            }
            i = i + 1;
        }
        let gw = self.words[goal];
        let rest = acc & !gw;
        proof {
            assert(is_word(gw, self.props@[goal as int], names));
            assert(sv.take(sv.len() as int) =~= sv);
            assert forall|r: u64| r < 64 implies #[trigger] bit(rest, r) == (all_true(
                sv,
                row(names, r),
            ) && !eval(g, row(names, r))) by {
                lemma_bits(acc, !gw, r);
                lemma_bits(gw, gw, r);
                assert(bit(gw, r) == eval(g, row(names, r)));
                assert(bit(acc, r) == all_true(sv, row(names, r)));
            }
            if rest == 0 {
                assert forall|v: Valuation| #[trigger] all_true(sv, v) implies eval(g, v) by {
                    let r = lemma_row_for(names, v);
                    let w = row(names, r);
                    self.lemma_same_value(g, goal as int, v, w);
                    assert forall|k: int| 0 <= k < sv.len() implies eval(#[trigger] sv[k], w) by {
                        assert(state@[k] < self.props().len());
                        self.lemma_same_value(sv[k], state@[k] as int, v, w);
                        assert(eval(sv[k], v));
                    }
                    assert(all_true(sv, w));
                    lemma_bits(0, 0, r);
                    assert(!bit(rest, r));
                }
            } else {
                if entails(sv, g) {
                    assert forall|r: u64| r < 64 implies !#[trigger] bit(rest, r) by {
                        if bit(rest, r) {
                            assert(all_true(sv, row(names, r)));
                        }
                    }
                    lemma_no_bits(rest);
                }
            }
        }
        rest == 0
    }

    /// A formula of the bank has the same value under valuations that agree on the names.
    proof fn lemma_same_value(self, p: Prop, id: int, v: Valuation, w: Valuation)
        requires
            self.wf(),
            0 <= id < self.props@.len(),
            p == self.props@[id],
            forall|i: int|
                0 <= i < self.name_list().len() ==> w(#[trigger] self.name_list()[i]) == v(
                    self.name_list()[i],
                ),
        ensures
            eval(p, v) == eval(p, w),
    {
        let names = self.name_list();
        assert(atoms_among(self.props@[id], names));
        assert forall|n: Seq<char>| #[trigger] atom_names(p).contains(n) implies v(n) == w(n) by {
            let i = choose|i: int| 0 <= i < names.len() && names[i] == n;
            assert(w(names[i]) == v(names[i]));
        }
        lemma_eval_agree(p, v, w);
    }

    /// Appends to `out` the rewrites `part` of one part of the formula `id`, put into it.
    fn push_placed(
        &mut self,
        out: &mut Vec<(usize, EquivalenceRule)>,
        id: usize,
        left: bool,
        part: &Vec<(usize, EquivalenceRule)>,
    )
        requires
            old(self).wf(),
            id < old(self).props().len(),
            has_part(old(self).props()[id as int], left),
            list_within(part@, old(self).props().len() as int),
            list_view(part@, old(self).props()) == rewrites(
                part_of(old(self).props()[id as int], left),
            ),
            list_within(old(out)@, old(self).props().len() as int),
        ensures
            final(self).wf(),
            extends(old(self).props(), final(self).props()),
            list_within(final(out)@, final(self).props().len() as int),
            list_view(final(out)@, final(self).props()) == list_view(old(out)@, old(self).props())
                + part_rewrites(old(self).props()[id as int], left),
    {
        let node = self.nodes[id];
        let ghost start = list_view(out@, self.props());
        let ghost whole = self.props()[id as int];
        let ghost target = part_rewrites(whole, left);
        let ghost base = self.props();
        let mut k: usize = 0;
        assert(start + target.take(0) =~= start);
        while k < part.len()
            invariant
                k <= part@.len(),
                self.wf(),
                base == old(self).props(),
                extends(base, self.props()),
                id < base.len(),
                whole == base[id as int],
                node == self.nodes@[id as int],
                has_part(whole, left),
                target == part_rewrites(whole, left),
                list_within(part@, base.len() as int),
                list_view(part@, base) == rewrites(part_of(whole, left)),
                list_within(out@, self.props().len() as int),
                list_view(out@, self.props()) == start + target.take(k as int),
            decreases part@.len() - k,
        {
            let x = part[k].0;
            let rule = part[k].1;
            assert(part@[k as int].0 < base.len());
            assert(fits(self.nodes@[id as int], self.names@.len() as int, id as int));
            assert(self.props()[id as int] == whole);
            let replaced = if left {
                Node { kind: node.kind, a: x, b: node.b }
            } else {
                Node { kind: node.kind, a: node.a, b: x }
            };
            let ghost before = self.props();
            let ghost had = out@;
            assert(shape(replaced, self.name_list(), before) == placed(
                whole,
                left,
                base[x as int],
            )) by {
                assert(before[x as int] == base[x as int]);
            }
            assert(fits(replaced, self.names@.len() as int, before.len() as int));
            assert(self.nodes@.len() == before.len());
            let y = self.intern_node(replaced);
            out.push((y, rule));
            proof {
                self.lemma_node_kept(before, id as int, node, whole);
                assert(list_view(part@, base)[k as int] == (base[x as int], rule));
                assert(target[k as int] == (placed(whole, left, base[x as int]), rule));
                assert(list_view(had, self.props()) =~= list_view(had, before));
                assert(list_view(out@, self.props()) =~= list_view(had, before).push(
                    (placed(whole, left, base[x as int]), rule),
                ));
                assert(target.take(k as int + 1) =~= target.take(k as int).push(target[k as int]));
                assert(start + target.take(k as int + 1) =~= (start + target.take(k as int)).push(
                    target[k as int],
                ));
            }
            k = k + 1;
        }
        assert(list_view(part@, base).len() == part@.len());
        assert(target.take(target.len() as int) =~= target);
    }

    /// A formula keeps its node in a greater bank.
    proof fn lemma_node_kept(self, before: Seq<Prop>, id: int, node: Node, whole: Prop)
        requires
            self.wf(),
            extends(before, self.props@),
            0 <= id < before.len(),
            before[id] == whole,
            fits(node, self.names@.len() as int, id),
            whole == shape(node, self.name_list(), before),
        ensures
            self.nodes@[id] == node,
    {
        assert(self.props@[id] == whole);
        assert(shape(node, self.name_list(), self.props@) == whole);
        assert(fits(node, self.names@.len() as int, self.props@.len() as int));
        self.lemma_same_node(id, node);
    }

    /// The one-step rewrites of a formula.
    pub fn rewrites(&mut self, id: usize) -> (r: Vec<(usize, EquivalenceRule)>)
        requires
            old(self).wf(),
            id < old(self).props().len(),
        ensures
            final(self).wf(),
            extends(old(self).props(), final(self).props()),
            list_within(r@, final(self).props().len() as int),
            list_view(r@, final(self).props()) == rewrites(old(self).props()[id as int]),
        decreases id,
    {
        assert(self.lists@[id as int] == self.lists@[id as int]);
        match &self.lists[id] {
            Some(l) => {
                return copy_list(l);
            },
            None => {},
        }
        let ghost whole = self.props()[id as int];
        let f = self.formula(id);
        let root = root_rewrites_of(&f);
        let ghost rv = rewrite_views(root@);
        let mut out: Vec<(usize, EquivalenceRule)> = Vec::new();
        let mut i: usize = 0;
        assert(list_view(out@, self.props()) =~= rv.take(0));
        while i < root.len()
            invariant
                i <= root@.len(),
                self.wf(),
                extends(old(self).props(), self.props()),
                rv == rewrite_views(root@),
                list_within(out@, self.props().len() as int),
                list_view(out@, self.props()) == rv.take(i as int),
            decreases root@.len() - i,
        {
            let ghost before = self.props();
            let ghost had = out@;
            let x = self.intern(&root[i].0);
            let rule = root[i].1;
            out.push((x, rule));
            proof {
                assert(list_view(had, self.props()) =~= list_view(had, before));
                assert(list_view(out@, self.props()) =~= list_view(had, before).push(
                    (root@[i as int].0@, rule),
                ));
                assert(rv.take(i as int + 1) =~= rv.take(i as int).push(rv[i as int]));
            }
            i = i + 1;
        }
        assert(rv.take(rv.len() as int) =~= rv);
        proof {
            lemma_rewrites_placed(whole);
            assert(self.props()[id as int] == whole);
        }
        let node = self.nodes[id];
        assert(fits(self.nodes@[id as int], self.names@.len() as int, id as int));
        assert(list_view(out@, self.props()) == root_rewrites(whole));
        match node.kind {
            Kind::Atom | Kind::Contradiction => {
                assert(rewrites(whole) =~= root_rewrites(whole));
            },
            Kind::Not => {
                let ghost before = self.props();
                let ghost had = out@;
                let la = self.rewrites(node.a);
                assert(list_view(had, self.props()) =~= list_view(had, before));
                self.push_placed(&mut out, id, true, &la);
                assert(rewrites(whole) =~= root_rewrites(whole) + part_rewrites(whole, true));
            },
            _ => {
                let ghost before = self.props();
                let ghost had = out@;
                let la = self.rewrites(node.a);
                assert(list_view(had, self.props()) =~= list_view(had, before));
                self.push_placed(&mut out, id, true, &la);
                let ghost before2 = self.props();
                let ghost had2 = out@;
                let lb = self.rewrites(node.b);
                assert(list_view(had2, self.props()) =~= list_view(had2, before2));
                self.push_placed(&mut out, id, false, &lb);
            },
        }
        let kept = copy_list(&out);
        let ghost before = *self;
        self.lists.set(id, Some(kept));
        proof {
            assert forall|j: int| 0 <= j < self.props@.len() implies match #[trigger] self.lists@[j] {
                Some(l) => list_within(l@, self.props@.len() as int) && list_view(l@, self.props@)
                    == rewrites(self.props@[j]),
                None => true,
            } by {
                if j != id {
                    assert(before.lists@[j] == self.lists@[j]);
                }
            }
            assert(self.caches_ok());
        }
        out
    }

    /// Whether one of `ids` is one rewrite away from the formula `id`. Rewriting works
    /// both ways, so either side's rewrites tell; those that are at hand are used.
    pub fn near(&mut self, id: usize, ids: &Vec<usize>) -> (r: bool)
        requires
            old(self).wf(),
            id < old(self).props().len(),
            ids_within(ids@, old(self).props().len() as int),
        ensures
            final(self).wf(),
            extends(old(self).props(), final(self).props()),
            r == is_near(old(self).props()[id as int], picked(old(self).props(), ids@)),
    {
        let ghost base = self.props();
        let ghost whole = base[id as int];
        match &self.lists[id] {
            Some(list) => {
                assert(self.lists@[id as int] is Some);
                return is_any_in(list, ids, Ghost(whole), Ghost(base));
            },
            None => {},
        }
        let mut known = true;
        let mut i: usize = 0;
        while i < ids.len() && known
            invariant
                i <= ids@.len(),
                *self == *old(self),
                self.wf(),
                ids_within(ids@, self.props().len() as int),
                known ==> forall|j: int|
                    0 <= j < i ==> self.lists@[(#[trigger] ids@[j]) as int] is Some,
            decreases ids@.len() - i + (if known { 1int } else { 0int }),
        {
            assert(ids@[i as int] < self.props().len());
            if self.lists[ids[i]].is_none() {
                known = false;
            } else {
                i = i + 1;
            }
        }
        if known {
            let mut k: usize = 0;
            let ghost sv = picked(base, ids@);
            while k < ids.len()
                invariant
                    k <= ids@.len(),
                    *self == *old(self),
                    self.wf(),
                    base == self.props(),
                    id < base.len(),
                    whole == base[id as int],
                    sv == picked(base, ids@),
                    ids_within(ids@, base.len() as int),
                    forall|j: int|
                        0 <= j < ids@.len() ==> self.lists@[(#[trigger] ids@[j]) as int] is Some,
                    forall|j: int, rule: EquivalenceRule|
                        0 <= j < k ==> !#[trigger] rewrites(sv[j]).contains((whole, rule)),
                decreases ids@.len() - k,
            {
                let x = ids[k];
                assert(ids@[k as int] < base.len());
                assert(self.lists@[x as int] is Some);
                match &self.lists[x] {
                    Some(list) => {
                        let target = id;
                        if holds(list, target, Ghost(base), Ghost(sv[k as int])) {
                            proof {
                                let rule = choose|rule: EquivalenceRule|
                                    #[trigger] rewrites(sv[k as int]).contains((whole, rule));
                                law_rewrites_symmetric(sv[k as int], whole, rule);
                                assert(rewrites(whole).contains((sv[k as int], rule)));
                            }
                            return true;
                        }
                    },
                    None => {},
                }
                k = k + 1;
            }
            proof {
                if is_near(whole, sv) {
                    let (j, rule) = choose|j: int, rule: EquivalenceRule|
                        0 <= j < sv.len() && #[trigger] rewrites(whole).contains((sv[j], rule));
                    law_rewrites_symmetric(whole, sv[j], rule);
                }
            }
            return false;
        }
        let list = self.rewrites(id);
        proof {
            lemma_picked_extends(base, self.props(), ids@);
            self.lemma_distinct();
        }
        is_any_in(&list, ids, Ghost(whole), Ghost(self.props()))
    }
}

/// Whether one of the formulas `s` is a one-step rewrite of `p`.
pub open spec fn is_near(p: Prop, s: Seq<Prop>) -> bool {
    exists|i: int, rule: EquivalenceRule|
        0 <= i < s.len() && #[trigger] rewrites(p).contains((s[i], rule))
}

/// Whether a list of rewrites of `whole` leads to the formula `id`.
fn holds(
    list: &Vec<(usize, EquivalenceRule)>,
    id: usize,
    Ghost(props): Ghost<Seq<Prop>>,
    Ghost(whole): Ghost<Prop>,
) -> (r: bool)
    requires
        props.no_duplicates(),
        id < props.len(),
        list_within(list@, props.len() as int),
        list_view(list@, props) == rewrites(whole),
    ensures
        r == exists|rule: EquivalenceRule|
            #[trigger] rewrites(whole).contains((props[id as int], rule)),
{
    let ghost l = list_view(list@, props);
    let mut k: usize = 0;
    while k < list.len()
        invariant
            k <= list@.len(),
            id < props.len(),
            l == list_view(list@, props),
            l == rewrites(whole),
            forall|j: int| 0 <= j < k ==> (#[trigger] list@[j]).0 != id,
        decreases list@.len() - k,
    {
        if list[k].0 == id {
            assert(l[k as int] == (props[id as int], list@[k as int].1));
            assert(rewrites(whole).contains((props[id as int], list@[k as int].1)));
            return true;
        }
        k = k + 1;
    }
    proof {
        if exists|rule: EquivalenceRule|
            #[trigger] rewrites(whole).contains((props[id as int], rule)) {
            let rule = choose|rule: EquivalenceRule|
                #[trigger] rewrites(whole).contains((props[id as int], rule));
            let j = choose|j: int| 0 <= j < l.len() && l[j] == (props[id as int], rule);
            assert(list@[j].0 < props.len());
            assert(props[list@[j].0 as int] == props[id as int]);
            assert(list@[j].0 == id);
        }
    }
    false
}

/// Whether a list of rewrites of `whole` leads to one of the formulas `ids`.
fn is_any_in(
    list: &Vec<(usize, EquivalenceRule)>,
    ids: &Vec<usize>,
    Ghost(whole): Ghost<Prop>,
    Ghost(props): Ghost<Seq<Prop>>,
) -> (r: bool)
    requires
        props.no_duplicates(),
        ids_within(ids@, props.len() as int),
        list_within(list@, props.len() as int),
        list_view(list@, props) == rewrites(whole),
    ensures
        r == is_near(whole, picked(props, ids@)),
{
    let ghost sv = picked(props, ids@);
    let mut i: usize = 0;
    while i < ids.len()
        invariant
            i <= ids@.len(),
            props.no_duplicates(),
            ids_within(ids@, props.len() as int),
            list_within(list@, props.len() as int),
            list_view(list@, props) == rewrites(whole),
            sv == picked(props, ids@),
            forall|j: int, rule: EquivalenceRule|
                0 <= j < i ==> !#[trigger] rewrites(whole).contains((sv[j], rule)),
        decreases ids@.len() - i,
    {
        assert(ids@[i as int] < props.len());
        if holds(list, ids[i], Ghost(props), Ghost(whole)) {
            assert(sv[i as int] == props[ids@[i as int] as int]);
            return true;
        }
        i = i + 1;
    }
    false
}

/// A copy of a list of rewrites.
fn copy_list(l: &Vec<(usize, EquivalenceRule)>) -> (r: Vec<(usize, EquivalenceRule)>)
    ensures
        r@ == l@,
{
    let mut r: Vec<(usize, EquivalenceRule)> = Vec::with_capacity(l.len());
    let mut i: usize = 0;
    while i < l.len()
        invariant
            i <= l@.len(),
            r@ == l@.take(i as int),
        decreases l@.len() - i,
    {
        r.push(l[i]);
        assert(l@.take(i as int + 1) =~= l@.take(i as int).push(l@[i as int]));
        i = i + 1;
    }
    assert(l@.take(l@.len() as int) =~= l@);
    r
}

} // verus!
