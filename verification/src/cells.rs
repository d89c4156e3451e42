//! Sets of map cells.

use std::collections::{HashMap, HashSet};
use vstd::prelude::*;
use vstd::std_specs::iter::IteratorSpec;
use crate::pathfinding::{Node, cell_key, key_of, node_of_key, lemma_key_injective};

verus! {

broadcast use vstd::std_specs::hash::group_hash_axioms;

/// A finite set of cells of the map.
pub struct CellSet {
    keys: HashSet<u64>,
}

impl View for CellSet {
    type V = Set<Node>;

    closed spec fn view(&self) -> Set<Node> {
        Set::new(|n: Node| self.keys@.contains(cell_key(n)))
    }
}

proof fn lemma_same_key(m: Node, n: Node)
    ensures
        (cell_key(m) == cell_key(n)) == (m == n),
{
    if cell_key(m) == cell_key(n) {
        lemma_key_injective(m, n);
    }
}

impl CellSet {
    /// An empty set.
    pub fn new() -> (s: CellSet)
        ensures
            s@ == Set::<Node>::empty(),
    {
        let s = CellSet { keys: HashSet::new() };
        assert(s@ =~= Set::<Node>::empty());
        s
    }

    /// Adds a cell.
    pub fn insert(&mut self, n: Node)
        ensures
            final(self)@ == old(self)@.insert(n),
    {
        let k = key_of(n);
        self.keys.insert(k);
        proof {
            assert forall|m: Node| #[trigger] self@.contains(m) == old(self)@.insert(n).contains(m) by {
                lemma_same_key(m, n);
            }
            assert(self@ =~= old(self)@.insert(n));
        }
    }

    /// Removes a cell.
    pub fn remove(&mut self, n: Node)
        ensures
            final(self)@ == old(self)@.remove(n),
    {
        let k = key_of(n);
        self.keys.remove(&k);
        proof {
            assert forall|m: Node| #[trigger] self@.contains(m) == old(self)@.remove(n).contains(m) by {
                lemma_same_key(m, n);
            }
            assert(self@ =~= old(self)@.remove(n));
        }
    }

    /// Whether the set holds `n`.
    pub fn contains(&self, n: Node) -> (b: bool)
        ensures
            b == self@.contains(n),
    {
        self.keys.contains(&key_of(n))
    }

    /// The cells of the set, each once, in no particular order.
    pub fn cells(&self) -> (r: Vec<Node>)
        ensures
            forall|n: Node| #[trigger] r@.contains(n) <==> self@.contains(n),
            r@.no_duplicates(),
    {
        let mut r: Vec<Node> = Vec::new();
        let ghost keys = self.keys@;
        let ghost s = vstd::std_specs::hash::spec_hash_keys_iter(&self.keys).remaining();
        proof {
            vstd::std_specs::hash::axiom_spec_hash_keys_iter(&self.keys);
        }
        for k in it: self.keys.iter()
            invariant
                keys == self.keys@,
                it.seq() == s,
                r@.len() == it.index(),
                forall|i: int| 0 <= i < it.index() ==> cell_key(#[trigger] r@[i]) == *s[i],
        {
            let n = node_of_key(*k);
            r.push(n);
        }
        proof {
            let u = s.unref();
            assert(u.to_set() == keys);
            assert forall|n: Node| #[trigger] r@.contains(n) <==> self@.contains(n) by {
                if r@.contains(n) {
                    let i = choose|i: int| 0 <= i < r@.len() && r@[i] == n;
                    assert(u[i] == cell_key(n));
                    assert(u.to_set().contains(u[i]));
                }
                if self@.contains(n) {
                    assert(u.to_set().contains(cell_key(n)));
                    let i = choose|i: int| 0 <= i < u.len() && u[i] == cell_key(n);
                    assert(cell_key(r@[i]) == cell_key(n));
                    lemma_same_key(r@[i], n);
                    assert(r@.contains(r@[i]));
                }
            }
        }
        r
    }
}

/// Map tokens by cell, with the cells in the order they were first
/// given a token.
pub struct TokenMap {
    tokens: HashMap<u64, String>,
    cells: Vec<Node>,
}

impl View for TokenMap {
    type V = Map<Node, Seq<char>>;

    closed spec fn view(&self) -> Map<Node, Seq<char>> {
        Map::new(|n: Node| self.tokens@.contains_key(cell_key(n)), |n: Node| self.tokens@[cell_key(n)]@)
    }
}

impl TokenMap {
    /// The cells listed are exactly those with a token, each once.
    #[verifier::type_invariant]
    spec fn listed_once(self) -> bool {
        &&& forall|n: Node| #[trigger] self@.contains_key(n) <==> self.cells@.contains(n)
        &&& forall|i: int, j: int| 0 <= i < j < self.cells@.len() ==> self.cells@[i] != self.cells@[j]
    }

    /// The cells that have a token, in the order they got it.
    pub closed spec fn order(self) -> Seq<Node> {
        self.cells@
    }

    /// No tokens.
    pub fn new() -> (m: TokenMap)
        ensures
            m@ == Map::<Node, Seq<char>>::empty(),
            m.order().len() == 0,
    {
        let m = TokenMap { tokens: HashMap::new(), cells: Vec::new() };
        assert(m@ =~= Map::<Node, Seq<char>>::empty());
        m
    }

    /// Records `token` for cell `n`.
    pub fn insert(&mut self, n: Node, token: String)
        ensures
            final(self)@ == old(self)@.insert(n, token@),
    {
        proof {
            use_type_invariant(&*self);
        }
        let ghost before = self@;
        let mut taken = TokenMap::new();
        std::mem::swap(&mut taken, self);
        let TokenMap { mut tokens, mut cells } = taken;
        let k = key_of(n);
        let had = tokens.contains_key(&k);
        let ghost cells0 = cells@;
        if !had {
            cells.push(n);
        }
        tokens.insert(k, token);
        let ghost after = Map::new(|m: Node| tokens@.contains_key(cell_key(m)), |m: Node| tokens@[cell_key(m)]@);
        proof {
            assert forall|m: Node| #[trigger] after.contains_key(m) == before.insert(n, token@).contains_key(m) by {
                lemma_same_key(m, n);
            }
            assert forall|m: Node| #[trigger] after.contains_key(m) implies after[m] == before.insert(n, token@)[m] by {
                lemma_same_key(m, n);
            }
            assert(after =~= before.insert(n, token@));
            assert forall|m: Node| #[trigger] after.contains_key(m) <==> cells@.contains(m) by {
                lemma_same_key(m, n);
                if !had && m != n {
                    if cells@.contains(m) {
                        let i = cells@.index_of(m);
                        assert(cells0[i] == m);
                    }
                    if cells0.contains(m) {
                        let i = cells0.index_of(m);
                        assert(cells@[i] == m);
                    }
                }
                if !had && m == n {
                    assert(cells@[cells@.len() - 1] == n);
                }
            }
            if !had {
                assert(!before.contains_key(n));
                assert(!cells0.contains(n));
            }
        }
        *self = TokenMap { tokens, cells };
    }

    /// The token of cell `n`, if one is recorded.
    pub fn get(&self, n: Node) -> (r: Option<String>)
        ensures
            r matches Some(t) ==> self@.contains_key(n) && t@ == self@[n],
            r is None ==> !self@.contains_key(n),
    {
        match self.tokens.get(&key_of(n)) {
            Some(t) => Some(crate::text::string_of(&crate::text::chars_of(t.as_str()))),
            None => None,
        }
    }

    /// Every cell with its token, in the order the cells got their first
    /// token.
    pub fn entries(&self) -> (r: Vec<(Node, String)>)
        ensures
            r@.len() == self.order().len(),
            forall|i: int| 0 <= i < r@.len() ==> (#[trigger] r@[i]).0 == self.order()[i] && r@[i].1@ == self@[r@[i].0],
            forall|n: Node| #[trigger] self@.contains_key(n) <==> self.order().contains(n),
            forall|i: int, j: int| 0 <= i < j < self.order().len() ==> self.order()[i] != self.order()[j],
    {
        proof {
            use_type_invariant(self);
        }
        let mut r: Vec<(Node, String)> = Vec::new();
        let mut i: usize = 0;
        while i < self.cells.len()
            invariant
                i <= self.cells@.len(),
                r@.len() == i,
                forall|n: Node| #[trigger] self@.contains_key(n) <==> self.cells@.contains(n),
                forall|k: int| 0 <= k < i ==> (#[trigger] r@[k]).0 == self.cells@[k] && r@[k].1@ == self@[r@[k].0],
            decreases self.cells@.len() - i,
        {
            let n = self.cells[i];
            assert(self.cells@.contains(n));
            match self.get(n) {
                Some(t) => {
                    r.push((n, t));
                },
                None => {
                    assert(false);
                },
            }
            i = i + 1;
        }
        r
    }
}

} // verus!
