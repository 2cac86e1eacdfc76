use vstd::prelude::*;
use crate::bytes::{bytes_eq, contains_vec, copy_bytes, copy_vecs, distinct_seq, dv};

verus! {

broadcast use vstd::std_specs::vec::axiom_spec_len, vstd::seq_lib::group_seq_properties;

/// The position of the first element of `s` equal to `x`, or -1 when `x`
/// does not occur.
pub open spec fn spec_index_of(s: Seq<Seq<u8>>, x: Seq<u8>) -> int
    decreases s.len(),
{
    if s.len() == 0 {
        -1
    } else if s[0] == x {
        0
    } else {
        let r = spec_index_of(s.skip(1), x);
        if r < 0 {
            -1
        } else {
            r + 1
        }
    }
}

pub proof fn lemma_index_of(s: Seq<Seq<u8>>, x: Seq<u8>)
    ensures
        -1 <= spec_index_of(s, x) < s.len(),
        spec_index_of(s, x) >= 0 ==> s[spec_index_of(s, x)] == x,
        forall|j: int| 0 <= j < spec_index_of(s, x) ==> s[j] != x,
        spec_index_of(s, x) == -1 ==> forall|j: int| 0 <= j < s.len() ==> s[j] != x,
    decreases s.len(),
{
    if s.len() > 0 && s[0] != x {
        lemma_index_of(s.skip(1), x);
        assert(forall|j: int| 1 <= j < s.len() ==> s[j] == s.skip(1)[j - 1]);
    }
}

/// `spec_index_of` is decided by the elements alone: equal prefixes agree.
pub proof fn lemma_index_of_push(s: Seq<Seq<u8>>, y: Seq<u8>, x: Seq<u8>)
    ensures
        x != y && spec_index_of(s, x) >= 0 ==> spec_index_of(s.push(y), x) == spec_index_of(s, x),
        x != y && spec_index_of(s, x) == -1 ==> spec_index_of(s.push(y), x) == -1,
        x == y && spec_index_of(s, x) == -1 ==> spec_index_of(s.push(y), x) == s.len(),
        x == y && spec_index_of(s, x) >= 0 ==> spec_index_of(s.push(y), x) == spec_index_of(s, x),
    decreases s.len(),
{
    if s.len() == 0 {
        assert(s.push(y)[0] == y);
        if x == y {
            assert(spec_index_of(s.push(y), x) == 0);
        } else {
            assert(s.push(y).skip(1) =~= Seq::<Seq<u8>>::empty());
            assert(spec_index_of(s.push(y).skip(1), x) == -1);
            assert(spec_index_of(s.push(y), x) == -1);
        }
    } else {
        assert(s.push(y)[0] == s[0]);
        if s[0] != x {
            lemma_index_of_push(s.skip(1), y, x);
            assert(s.push(y).skip(1) =~= s.skip(1).push(y));
        }
    }
}

/// A directed graph over byte-string node identifiers: a node set plus, for
/// each node, the set of its successors. Edges exist only between nodes that
/// are both present.
pub struct Graph {
    nodes: Vec<Vec<u8>>,
    succs: Vec<Vec<Vec<u8>>>,
}

impl Graph {
    /// Internal consistency: one successor list per node, no duplicate
    /// nodes, no duplicate successors, and every successor is itself a node.
    pub closed spec fn wf(&self) -> bool {
        &&& self.succs@.len() == self.nodes@.len()
        &&& distinct_seq(dv(self.nodes@))
        &&& forall|i: int|
            0 <= i < self.succs@.len() ==> distinct_seq(dv(#[trigger] self.succs@[i]@))
        &&& forall|i: int, j: int|
            0 <= i < self.succs@.len() && 0 <= j < self.succs@[i]@.len() ==> dv(
                self.nodes@,
            ).contains(#[trigger] dv(self.succs@[i]@)[j])
    }

    /// The set of node identifiers present in the graph.
    pub closed spec fn node_set(&self) -> Set<Seq<u8>> {
        dv(self.nodes@).to_set()
    }

    /// The successors of `n`: the targets of the edges leaving `n`. Empty
    /// when `n` is not a node.
    pub closed spec fn succ_set(&self, n: Seq<u8>) -> Set<Seq<u8>> {
        let i = spec_index_of(dv(self.nodes@), n);
        if i < 0 {
            Set::<Seq<u8>>::empty()
        } else {
            dv(self.succs@[i]@).to_set()
        }
    }

    /// The node set is finite (it is held in a vector).
    pub proof fn lemma_node_set_finite(&self)
        ensures
            self.node_set().finite(),
    {
        broadcast use vstd::seq_lib::seq_to_set_is_finite;

    }

    pub fn new() -> (g: Graph)
        ensures
            g.wf(),
            g.node_set() == Set::<Seq<u8>>::empty(),
            forall|n: Seq<u8>| #[trigger] g.succ_set(n) == Set::<Seq<u8>>::empty(),
    {
        let g = Graph { nodes: Vec::new(), succs: Vec::new() };
        proof {
            assert(g.node_set() =~= Set::<Seq<u8>>::empty());
            assert forall|n: Seq<u8>| #[trigger] g.succ_set(n) == Set::<Seq<u8>>::empty() by {
                lemma_index_of(dv(g.nodes@), n);
            }
        }
        g
    }

    /// The index of `node` in the node list, when present.
    fn find_node(&self, node: &Vec<u8>) -> (r: Option<usize>)
        ensures
            match r {
                Some(i) => i < self.nodes@.len() && i as int == spec_index_of(
                    dv(self.nodes@),
                    node@,
                ),
                None => spec_index_of(dv(self.nodes@), node@) == -1,
            },
    {
        proof {
            lemma_index_of(dv(self.nodes@), node@);
        }
        let mut i: usize = 0;
        while i < self.nodes.len()
            invariant
                i <= self.nodes@.len(),
                forall|j: int| 0 <= j < i ==> dv(self.nodes@)[j] != node@,
            decreases self.nodes@.len() - i,
        {
            if bytes_eq(&self.nodes[i], node) {
                proof {
                    assert(dv(self.nodes@)[i as int] == node@);
                    lemma_index_of(dv(self.nodes@), node@);
                }
                return Some(i);
            }
            i = i + 1;
        }
        proof {
            lemma_index_of(dv(self.nodes@), node@);
        }
        None
    }

    pub fn _has_node(&self, node: &Vec<u8>) -> (r: bool)
        ensures
            r == self.node_set().contains(node@),
    {
        proof {
            lemma_index_of(dv(self.nodes@), node@);
        }
        self.find_node(node).is_some()
    }

    /// Adds `value` as a node with no successors; already-present nodes are
    /// left exactly as they are.
    pub fn create_node(&mut self, value: Vec<u8>)
        requires
            old(self).wf(),
        ensures
            final(self).wf(),
            final(self).node_set() == old(self).node_set().insert(value@),
            forall|n: Seq<u8>| #[trigger] final(self).succ_set(n) == old(self).succ_set(n),
    {
        let present = self._has_node(&value);
        if present {
            proof {
                assert(self.node_set() =~= old(self).node_set().insert(value@));
            }
            return;
        }
        let ghost v = value@;
        let ghost oldnodes = dv(self.nodes@);
        let ghost oldsuccs = self.succs@;
        self.nodes.push(value);
        self.succs.push(Vec::new());
        proof {
            assert(dv(self.nodes@) =~= oldnodes.push(v));
            // well-formedness
            assert(distinct_seq(dv(self.nodes@))) by {
                assert(!oldnodes.contains(v));
                assert(forall|j: int|
                    0 <= j < oldnodes.len() ==> dv(self.nodes@)[j] == oldnodes[j]);
            }
            assert(forall|i: int|
                0 <= i < oldsuccs.len() ==> self.succs@[i] == oldsuccs[i]);
            assert(dv(self.succs@.last()@) =~= Seq::<Seq<u8>>::empty());
            assert forall|i: int, j: int|
                0 <= i < self.succs@.len() && 0 <= j < self.succs@[i]@.len() implies dv(
                self.nodes@,
            ).contains(#[trigger] dv(self.succs@[i]@)[j]) by {
                if i < oldsuccs.len() {
                    let e = dv(self.succs@[i]@)[j];
                    assert(dv(old(self).succs@[i]@)[j] == e);
                    assert(oldnodes.contains(e));
                    let k = choose|k: int| 0 <= k < oldnodes.len() && oldnodes[k] == e;
                    assert(dv(self.nodes@)[k] == e);
                }
            }
            assert(self.wf());
            // node set
            assert(self.node_set() =~= old(self).node_set().insert(v));
            // successor sets
            assert forall|n: Seq<u8>| #[trigger] self.succ_set(n) == old(self).succ_set(n) by {
                lemma_index_of_push(oldnodes, v, n);
                lemma_index_of(oldnodes, n);
                if n == v {
                    if spec_index_of(oldnodes, n) == -1 {
                        assert(self.succ_set(n) =~= Set::<Seq<u8>>::empty());
                        assert(old(self).succ_set(n) =~= Set::<Seq<u8>>::empty());
                    }
                }
            }
        }
    }

    /// Adds an edge `from -> to` when both endpoints are nodes; otherwise
    /// leaves the graph exactly as it was.
    pub fn create_edge(&mut self, from: &Vec<u8>, to: &Vec<u8>)
        requires
            old(self).wf(),
        ensures
            final(self).wf(),
            final(self).node_set() == old(self).node_set(),
            old(self).node_set().contains(from@) && old(self).node_set().contains(to@) ==> {
                &&& final(self).succ_set(from@) == old(self).succ_set(from@).insert(to@)
                &&& forall|n: Seq<u8>|
                    n != from@ ==> #[trigger] final(self).succ_set(n) == old(self).succ_set(n)
            },
            !(old(self).node_set().contains(from@) && old(self).node_set().contains(to@))
                ==> *final(self) == *old(self),
    {
        proof {
            lemma_index_of(dv(self.nodes@), from@);
            lemma_index_of(dv(self.nodes@), to@);
        }
        let idx_opt = self.find_node(from);
        let to_present = self._has_node(to);
        match idx_opt {
            None => {},
            Some(idx) => {
                if to_present {
                    let already = contains_vec(&self.succs[idx], to);
                    if already {
                        proof {
                            assert(old(self).succ_set(from@).contains(to@));
                            assert(self.succ_set(from@) =~= old(self).succ_set(from@).insert(
                                to@,
                            ));
                        }
                    } else {
                        let ghost oldsuccs = self.succs@;
                        let ghost nodes0 = self.nodes@;
                        let mut lst = self.succs.remove(idx);
                        let ghost oldlst = dv(lst@);
                        lst.push(copy_bytes(to));
                        self.succs.insert(idx, lst);
                        proof {
                            assert(self.nodes@ == nodes0);
                            assert(forall|i: int|
                                0 <= i < oldsuccs.len() && i != idx ==> self.succs@[i]
                                    == oldsuccs[i]);
                            assert(dv(self.succs@[idx as int]@) =~= oldlst.push(to@));
                            // well-formedness
                            assert(distinct_seq(dv(self.succs@[idx as int]@))) by {
                                assert(forall|j: int|
                                    0 <= j < oldlst.len() ==> dv(self.succs@[idx as int]@)[j]
                                        == oldlst[j]);
                            }
                            assert(self.wf());
                            assert(self.node_set() =~= old(self).node_set());
                            assert(self.succ_set(from@) =~= old(self).succ_set(from@).insert(
                                to@,
                            ));
                            assert forall|n: Seq<u8>|
                                n != from@ implies #[trigger] self.succ_set(n) == old(
                                self,
                            ).succ_set(n) by {
                                lemma_index_of(dv(self.nodes@), n);
                                let i = spec_index_of(dv(self.nodes@), n);
                                if i >= 0 {
                                    assert(dv(self.nodes@)[i] == n);
                                    assert(i != idx);
                                }
                            }
                        }
                    }
                }
            },
        }
    }

    /// The successor list of `node`, when `node` is present.
    pub fn get_connected(&self, node: &Vec<u8>) -> (r: Option<&Vec<Vec<u8>>>)
        requires
            self.wf(),
        ensures
            r is Some <==> self.node_set().contains(node@),
            match r {
                Some(lst) => {
                    &&& dv(lst@).to_set() == self.succ_set(node@)
                    &&& distinct_seq(dv(lst@))
                    &&& forall|j: int|
                        0 <= j < lst@.len() ==> self.node_set().contains(#[trigger] dv(lst@)[j])
                },
                None => self.succ_set(node@) == Set::<Seq<u8>>::empty(),
            },
    {
        proof {
            lemma_index_of(dv(self.nodes@), node@);
        }
        match self.find_node(node) {
            Some(i) => {
                proof {
                    assert(dv(self.nodes@)[i as int] == node@);
                    assert(dv(self.nodes@).to_set().contains(node@));
                    assert(forall|j: int|
                        0 <= j < self.succs@[i as int]@.len() ==> dv(self.nodes@).contains(
                            #[trigger] dv(self.succs@[i as int]@)[j],
                        ));
                    assert(forall|j: int|
                        0 <= j < self.succs@[i as int]@.len() ==> self.node_set().contains(
                            #[trigger] dv(self.succs@[i as int]@)[j],
                        ));
                }
                Some(&self.succs[i])
            },
            None => {
                proof {
                    if self.node_set().contains(node@) {
                        let j = choose|j: int|
                            0 <= j < dv(self.nodes@).len() && dv(self.nodes@)[j] == node@;
                        lemma_index_of(dv(self.nodes@), node@);
                    }
                }
                None
            },
        }
    }

    /// Removes every node and edge.
    pub fn clear(&mut self)
        ensures
            final(self).wf(),
            final(self).node_set() == Set::<Seq<u8>>::empty(),
            forall|n: Seq<u8>| #[trigger] final(self).succ_set(n) == Set::<Seq<u8>>::empty(),
    {
        self.nodes = Vec::new();
        self.succs = Vec::new();
        proof {
            assert(final(self).node_set() =~= Set::<Seq<u8>>::empty());
            assert forall|n: Seq<u8>| #[trigger] final(self).succ_set(n) == Set::<Seq<u8>>::empty()
                by {
                lemma_index_of(dv(self.nodes@), n);
            }
        }
    }
}

impl Clone for Graph {
    /// A clone carries the same nodes and the same edges.
    fn clone(&self) -> (r: Graph)
        ensures
            self.wf() ==> r.wf(),
            r.node_set() == self.node_set(),
            self.wf() ==> forall|n: Seq<u8>| #[trigger] r.succ_set(n) == self.succ_set(n),
    {
        let nodes = copy_vecs(&self.nodes);
        let mut succs: Vec<Vec<Vec<u8>>> = Vec::new();
        let mut i: usize = 0;
        while i < self.succs.len()
            invariant
                i <= self.succs@.len(),
                succs@.len() == i,
                forall|j: int| 0 <= j < i ==> dv(#[trigger] succs@[j]@) == dv(self.succs@[j]@),
            decreases self.succs@.len() - i,
        {
            let lst = copy_vecs(&self.succs[i]);
            succs.push(lst);
            i = i + 1;
        }
        let r = Graph { nodes, succs };
        proof {
            assert(dv(r.nodes@) == dv(self.nodes@));
            if self.wf() {
                assert(r.wf());
            }
            assert(r.node_set() =~= self.node_set());
            if self.wf() {
                assert forall|n: Seq<u8>| #[trigger] r.succ_set(n) == self.succ_set(n) by {
                    lemma_index_of(dv(self.nodes@), n);
                    let idx = spec_index_of(dv(self.nodes@), n);
                    if idx >= 0 {
                        assert(dv(r.succs@[idx]@) == dv(self.succs@[idx]@));
                    }
                }
            }
        }
        r
    }
}

} // verus!
