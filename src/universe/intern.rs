//! Interning of integer sequences: equal sequences get equal ids, distinct
//! sequences distinct ones. Each id is a path in a trie whose edges are kept
//! in a hash map keyed by (parent id, next symbol).
use std::collections::HashMap;
use vstd::prelude::*;

verus! {

broadcast use vstd::std_specs::hash::group_hash_axioms;

/// The edge key of `symbol` below the id `parent`.
pub open spec fn edge_key(parent: nat, symbol: nat) -> int {
    (parent * 0x1_0000_0000_0000_0000 + symbol) as int
}

pub struct Interner {
    edges: HashMap<u128, usize>,
    parents: Vec<usize>,
    seqs: Ghost<Seq<Seq<usize>>>,
}

impl Interner {
    /// The sequence that each id stands for.
    pub closed spec fn ids(&self) -> Seq<Seq<usize>> {
        self.seqs@
    }

    spec fn edge_ok(&self, k: u128) -> bool {
        &&& (self.edges@[k] as int) < self.seqs@.len()
        &&& (k as int) / 0x1_0000_0000_0000_0000 < self.seqs@.len()
        &&& (k as int) % 0x1_0000_0000_0000_0000 <= usize::MAX
        &&& self.seqs@[self.edges@[k] as int] == self.seqs@[(k as int) / 0x1_0000_0000_0000_0000].push(
            ((k as int) % 0x1_0000_0000_0000_0000) as usize,
        )
    }

    spec fn parent_ok(&self, q: int) -> bool {
        let p = self.parents@[q] as int;
        let k = edge_key(p as nat, self.seqs@[q].last() as nat) as u128;
        &&& p < self.seqs@.len()
        &&& self.seqs@[q].len() > 0
        &&& self.seqs@[q] == self.seqs@[p].push(self.seqs@[q].last())
        &&& self.edges@.contains_key(k)
        &&& self.edges@[k] == q
    }

    #[verifier::opaque]
    pub closed spec fn wf(&self) -> bool {
        &&& vstd::std_specs::hash::obeys_key_model::<u128>()
        &&& self.seqs@.len() == self.parents@.len()
        &&& self.seqs@.len() >= 1
        &&& self.seqs@[0] == Seq::<usize>::empty()
        &&& forall|i: int, j: int|
            0 <= i < self.seqs@.len() && 0 <= j < self.seqs@.len() && #[trigger] self.seqs@[i]
                == #[trigger] self.seqs@[j] ==> i == j
        &&& forall|k: u128| #[trigger] self.edges@.contains_key(k) ==> self.edge_ok(k)
        &&& forall|q: int| 0 < q < self.seqs@.len() ==> #[trigger] self.parent_ok(q)
    }

    /// An interner that knows only the empty sequence, as id 0.
    pub fn new() -> (r: Self)
        ensures
            r.wf(),
            r.ids() == seq![Seq::<usize>::empty()],
    {
        let mut parents: Vec<usize> = Vec::new();
        parents.push(0);
        let ghost first = seq![Seq::<usize>::empty()];
        let r = Interner { edges: HashMap::new(), parents, seqs: Ghost(first) };
        proof {
            reveal(Interner::wf);
        }
        r
    }

    proof fn lemma_key(p: nat, s: nat)
        requires
            s <= usize::MAX,
        ensures
            edge_key(p, s) / 0x1_0000_0000_0000_0000 == p,
            edge_key(p, s) % 0x1_0000_0000_0000_0000 == s,
    {
        vstd::arithmetic::div_mod::lemma_fundamental_div_mod_converse(
            edge_key(p, s),
            0x1_0000_0000_0000_0000,
            p as int,
            s as int,
        );
    }

    /// The id of the sequence of `parent` followed by `symbol`.
    pub fn step(&mut self, parent: usize, symbol: usize) -> (r: usize)
        requires
            old(self).wf(),
            (parent as int) < old(self).ids().len(),
        ensures
            final(self).wf(),
            old(self).ids().is_prefix_of(final(self).ids()),
            (r as int) < final(self).ids().len(),
            final(self).ids()[r as int] == old(self).ids()[parent as int].push(symbol),
    {
        proof {
            reveal(Interner::wf);
            Self::lemma_key(parent as nat, symbol as nat);
        }
        let key: u128 = (parent as u128) * 0x1_0000_0000_0000_0000u128 + (symbol as u128);
        assert(key as int == edge_key(parent as nat, symbol as nat));
        match self.edges.get(&key) {
            Some(q) => {
                assert(self.edge_ok(key));
                *q
            },
            None => {
                let q = self.parents.len();
                let ghost target = self.seqs@[parent as int].push(symbol);
                proof {
                    assert forall|j: int| 0 <= j < self.seqs@.len() implies self.seqs@[j] != target by {
                        if self.seqs@[j] == target {
                            if j == 0 {
                                assert(self.seqs@[j].len() == 0);
                            } else {
                                assert(self.parent_ok(j));
                                let pj = self.parents@[j] as int;
                                assert(self.seqs@[pj] =~= target.drop_last());
                                assert(target.drop_last() =~= self.seqs@[parent as int]);
                                assert(pj == parent);
                            }
                        }
                    }
                }
                self.parents.push(parent);
                self.edges.insert(key, q);
                let ghost grown = self.seqs@.push(target);
                self.seqs = Ghost(grown);
                proof {
                    assert(self.seqs@[q as int] == target);
                    assert forall|k: u128| #[trigger] self.edges@.contains_key(k) implies self.edge_ok(k) by {
                        if k != key {
                            assert(old(self).edges@.contains_key(k));
                            assert(old(self).edge_ok(k));
                        }
                    }
                    assert forall|q2: int| 0 < q2 < self.seqs@.len() implies #[trigger] self.parent_ok(q2) by {
                        if q2 < q {
                            assert(old(self).parent_ok(q2));
                            let k2 = edge_key(self.parents@[q2] as nat, self.seqs@[q2].last() as nat) as u128;
                            if k2 == key {
                                assert(old(self).edges@.contains_key(key));
                            }
                        } else {
                            assert(self.seqs@[q2].last() == symbol);
                            assert(self.seqs@[q2].drop_last() =~= old(self).seqs@[parent as int]);
                        }
                    }
                    assert forall|i: int, j: int|
                        0 <= i < self.seqs@.len() && 0 <= j < self.seqs@.len() && #[trigger] self.seqs@[i]
                            == #[trigger] self.seqs@[j] implies i == j by {
                        if i < q && j < q {
                            assert(old(self).seqs@[i] == old(self).seqs@[j]);
                        }
                    }
                    assert(old(self).ids().is_prefix_of(self.ids()));
                }
                q
            },
        }
    }

    /// The id of `symbols`.
    pub fn intern(&mut self, symbols: &Vec<usize>) -> (r: usize)
        requires
            old(self).wf(),
        ensures
            final(self).wf(),
            old(self).ids().is_prefix_of(final(self).ids()),
            (r as int) < final(self).ids().len(),
            final(self).ids()[r as int] == symbols@,
    {
        let mut id: usize = 0;
        let mut i: usize = 0;
        proof {
            lemma_root_id(self);
            assert(symbols@.subrange(0, 0) =~= Seq::<usize>::empty());
        }
        while i < symbols.len()
            invariant
                self.wf(),
                old(self).ids().is_prefix_of(self.ids()),
                i <= symbols.len(),
                (id as int) < self.ids().len(),
                self.ids()[id as int] == symbols@.subrange(0, i as int),
            decreases symbols.len() - i,
        {
            let ghost before = self.ids();
            id = self.step(id, symbols[i]);
            proof {
                assert(symbols@.subrange(0, i + 1) =~= symbols@.subrange(0, i as int).push(symbols@[i as int]));
                assert(before.is_prefix_of(self.ids()));
            }
            i += 1;
        }
        assert(symbols@.subrange(0, i as int) =~= symbols@);
        id
    }
}

/// Equal ids stand for equal sequences, and distinct ids for distinct ones.
pub proof fn lemma_ids_distinct(t: &Interner, i: int, j: int)
    requires
        t.wf(),
        0 <= i < t.ids().len(),
        0 <= j < t.ids().len(),
    ensures
        (t.ids()[i] == t.ids()[j]) == (i == j),
{
    reveal(Interner::wf);
}

/// Id 0 stands for the empty sequence.
pub proof fn lemma_root_id(t: &Interner)
    requires
        t.wf(),
    ensures
        t.ids().len() >= 1,
        t.ids()[0] == Seq::<usize>::empty(),
{
    reveal(Interner::wf);
}

} // verus!
