use vstd::prelude::*;
use crate::action::{Action, Error};
use crate::bytes::{bytes_eq, contains_vec, copy_bytes, copy_vecs, distinct_seq, dv};
use crate::graph::Graph;
use crate::state::BuildState;

verus! {

broadcast use
    vstd::std_specs::vec::axiom_spec_len,
    vstd::seq_lib::group_seq_properties,
    vstd::set_lib::group_set_properties,
    vstd::seq_lib::seq_to_set_is_finite;

/// The recorded modification time of `p`, if any: first match wins. The
/// inner `Option` is the stat outcome: `None` means the time could not be
/// determined.
pub open spec fn spec_mtime_of(ms: Seq<(Seq<u8>, Option<u64>)>, p: Seq<u8>) -> Option<
    Option<u64>,
>
    decreases ms.len(),
{
    if ms.len() == 0 {
        None
    } else if ms[0].0 == p {
        Some(ms[0].1)
    } else {
        spec_mtime_of(ms.skip(1), p)
    }
}

/// Whether a file counts as edited against the marker time `t`: its
/// recorded time is newer than `t`, or no time could be determined for it
/// (the fail-safe default).
pub open spec fn spec_edited(ms: Seq<(Seq<u8>, Option<u64>)>, t: u64, p: Seq<u8>) -> bool {
    match spec_mtime_of(ms, p) {
        None => true,
        Some(None) => true,
        Some(Some(m)) => m > t,
    }
}

/// The directly edited source files.
pub open spec fn spec_seed(
    ps: Seq<Seq<u8>>,
    ms: Seq<(Seq<u8>, Option<u64>)>,
    t: u64,
) -> Set<Seq<u8>> {
    Set::new(|p: Seq<u8>| ps.contains(p) && spec_edited(ms, t, p))
}

/// A path of `n` edges through the graph from `a` to `b`.
pub open spec fn spec_path_to(g: Graph, a: Seq<u8>, b: Seq<u8>, n: nat) -> bool
    decreases n,
{
    if n == 0 {
        a == b
    } else {
        exists|m: Seq<u8>|
            spec_path_to(g, a, m, (n - 1) as nat) && #[trigger] g.succ_set(m).contains(b)
    }
}

/// Whether `b` is reachable from some member of `seed` along graph edges.
pub open spec fn spec_reachable(g: Graph, seed: Set<Seq<u8>>, b: Seq<u8>) -> bool {
    exists|a: Seq<u8>, n: nat| seed.contains(a) && #[trigger] spec_path_to(g, a, b, n)
}

pub proof fn lemma_reach_seed(g: Graph, seed: Set<Seq<u8>>, a: Seq<u8>)
    requires
        seed.contains(a),
    ensures
        spec_reachable(g, seed, a),
{
    assert(spec_path_to(g, a, a, 0));
}

pub proof fn lemma_reach_step(g: Graph, seed: Set<Seq<u8>>, m: Seq<u8>, b: Seq<u8>)
    requires
        spec_reachable(g, seed, m),
        g.succ_set(m).contains(b),
    ensures
        spec_reachable(g, seed, b),
{
    let (a, n): (Seq<u8>, nat) = choose|a: Seq<u8>, n: nat|
        seed.contains(a) && #[trigger] spec_path_to(g, a, m, n);
    assert(spec_path_to(g, a, m, n) && g.succ_set(m).contains(b));
    assert(spec_path_to(g, a, b, n + 1));
}

proof fn lemma_path_in_closed(g: Graph, c: Set<Seq<u8>>, a: Seq<u8>, b: Seq<u8>, n: nat)
    requires
        c.contains(a),
        forall|m: Seq<u8>, d: Seq<u8>|
            c.contains(m) && #[trigger] g.succ_set(m).contains(d) ==> c.contains(d),
        spec_path_to(g, a, b, n),
    ensures
        c.contains(b),
    decreases n,
{
    if n > 0 {
        let m = choose|m: Seq<u8>|
            spec_path_to(g, a, m, (n - 1) as nat) && #[trigger] g.succ_set(m).contains(b);
        lemma_path_in_closed(g, c, a, m, (n - 1) as nat);
    }
}

/// A set that holds every seed and is closed under graph edges holds
/// everything reachable.
pub proof fn lemma_closed_covers_reachable(
    g: Graph,
    seed: Set<Seq<u8>>,
    c: Set<Seq<u8>>,
    b: Seq<u8>,
)
    requires
        forall|p: Seq<u8>| seed.contains(p) ==> c.contains(p),
        forall|m: Seq<u8>, d: Seq<u8>|
            c.contains(m) && #[trigger] g.succ_set(m).contains(d) ==> c.contains(d),
        spec_reachable(g, seed, b),
    ensures
        c.contains(b),
{
    let (a, n): (Seq<u8>, nat) = choose|a: Seq<u8>, n: nat|
        seed.contains(a) && #[trigger] spec_path_to(g, a, b, n);
    lemma_path_in_closed(g, c, a, b, n);
}

proof fn lemma_contains_drop_last(s: Seq<Seq<u8>>, p: Seq<u8>)
    requires
        s.len() > 0,
        s.contains(p),
    ensures
        p == s.last() || s.drop_last().contains(p),
{
    let k = choose|k: int| 0 <= k < s.len() && s[k] == p;
    if k < s.len() - 1 {
        assert(s.drop_last()[k] == p);
    }
}

/// The stage that computes the rebuild set. The marker's modification time
/// and each source file's are determined outside and handed in; the step
/// seeds the set with the directly edited files and propagates along the
/// reversed dependency graph, so every file that transitively names an
/// edited file is rebuilt. Without a marker every source file is rebuilt.
pub struct FetchEditedFiles {
    marker: Option<u64>,
    mtimes: Vec<(Vec<u8>, Option<u64>)>,
    old_changed: Option<Vec<Vec<u8>>>,
}

impl FetchEditedFiles {
    /// The marker time, or `None` when no prior successful build exists.
    pub closed spec fn marker_spec(&self) -> Option<u64> {
        self.marker
    }

    /// The recorded modification times, as handed in.
    pub closed spec fn mtimes_spec(&self) -> Seq<(Seq<u8>, Option<u64>)> {
        self.mtimes@.map_values(|e: (Vec<u8>, Option<u64>)| (e.0@, e.1))
    }

    pub fn new(marker: Option<u64>, mtimes: Vec<(Vec<u8>, Option<u64>)>) -> (r: Box<
        FetchEditedFiles,
    >)
        ensures
            r.wf(),
            r.is_reset(),
            r.marker_spec() == marker,
            r.mtimes_spec() == mtimes@.map_values(|e: (Vec<u8>, Option<u64>)| (e.0@, e.1)),
    {
        let r = FetchEditedFiles { marker, mtimes, old_changed: None };
        proof {
            assert forall|s: BuildState| #[trigger] r.restore(s) == s by {}
        }
        Box::new(r)
    }

    /// Whether `p` counts as edited against the marker time `t`.
    fn is_edited(&self, p: &Vec<u8>, t: u64) -> (r: bool)
        ensures
            r == spec_edited(self.mtimes_spec(), t, p@),
    {
        let ghost ms = self.mtimes_spec();
        let mut i: usize = 0;
        proof {
            assert(ms.skip(0) =~= ms);
        }
        while i < self.mtimes.len()
            invariant
                i <= self.mtimes@.len(),
                ms == self.mtimes_spec(),
                spec_mtime_of(ms.skip(i as int), p@) == spec_mtime_of(ms, p@),
            decreases self.mtimes@.len() - i,
        {
            proof {
                assert(ms.skip(i as int)[0] == ms[i as int]);
                assert(ms.skip(i as int).skip(1) =~= ms.skip(i as int + 1));
            }
            if bytes_eq(&self.mtimes[i].0, p) {
                proof {
                    assert(ms[i as int].0 == p@);
                }
                return match self.mtimes[i].1 {
                    None => true,
                    Some(m) => m > t,
                };
            }
            i = i + 1;
        }
        proof {
            assert(ms.skip(i as int) =~= Seq::<(Seq<u8>, Option<u64>)>::empty());
        }
        true
    }
}

impl Action for FetchEditedFiles {
    type State = BuildState;

    open spec fn inv(s: BuildState) -> bool {
        s.wf()
    }

    closed spec fn wf(&self) -> bool {
        match self.old_changed {
            None => true,
            Some(v) => distinct_seq(dv(v@)),
        }
    }

    closed spec fn restore(&self, s: BuildState) -> BuildState {
        match self.old_changed {
            None => s,
            Some(v) => BuildState {
                config: s.config,
                src_paths: s.src_paths,
                dep_graph: s.dep_graph,
                changed_files: v,
            },
        }
    }

    /// Success recomputes the rebuild set and changes nothing else. With no
    /// marker, the rebuild set is the whole source set; with a marker, it
    /// is exactly what is reachable in the graph from the edited files.
    open spec fn ens(pre_self: FetchEditedFiles, pre: BuildState, post: BuildState) -> bool {
        &&& (match pre_self.marker_spec() {
            None => dv(post.changed_files@) == dv(pre.src_paths@),
            Some(t) => dv(post.changed_files@).to_set() == Set::new(
                |b: Seq<u8>|
                    spec_reachable(
                        pre.dep_graph,
                        spec_seed(dv(pre.src_paths@), pre_self.mtimes_spec(), t),
                        b,
                    ),
            ),
        })
        &&& post.config == pre.config
        &&& post.src_paths == pre.src_paths
        &&& post.dep_graph == pre.dep_graph
    }

    /// Computing the rebuild set never fails.
    open spec fn err_ens(
        pre_self: FetchEditedFiles,
        pre: BuildState,
        post: BuildState,
        msg: Seq<u8>,
    ) -> bool {
        false
    }

    /// Restoring the previous rebuild set cannot fail.
    open spec fn undo_err_ens(pre_self: FetchEditedFiles, pre: BuildState) -> bool {
        false
    }

    proof fn restore_preserves_inv(&self, s: BuildState) {
    }

    fn execute(&mut self, state: &mut BuildState) -> (r: Result<(), Error>) {
        let mut saved: Vec<Vec<u8>> = Vec::new();
        core::mem::swap(&mut state.changed_files, &mut saved);
        self.old_changed = Some(saved);
        proof {
            assert(self.restore(*state) == *old(state));
        }
        let t = match self.marker {
            None => {
                let all = copy_vecs(&state.src_paths);
                state.changed_files = all;
                proof {
                    assert(self.restore(*state) == *old(state));
                }
                return Ok(());
            },
            Some(t) => t,
        };
        let ghost ms = self.mtimes_spec();
        let ghost ps = dv(state.src_paths@);
        let ghost g = state.dep_graph;
        let ghost seedset = spec_seed(ps, ms, t);
        let ghost universe = ps.to_set().union(g.node_set());
        // seed the work list with the directly edited files
        let mut queue: Vec<Vec<u8>> = Vec::new();
        let mut i: usize = 0;
        while i < state.src_paths.len()
            invariant
                i <= state.src_paths@.len(),
                ps == dv(state.src_paths@),
                ms == self.mtimes_spec(),
                seedset == spec_seed(ps, ms, t),
                self.marker_spec() == Some(t),
                forall|p: Seq<u8>|
                    #![trigger dv(queue@).contains(p)]
                    dv(queue@).contains(p) <==> (ps.take(i as int).contains(p) && spec_edited(
                        ms,
                        t,
                        p,
                    )),
            decreases state.src_paths@.len() - i,
        {
            let p = &state.src_paths[i];
            let ghost oldq = dv(queue@);
            proof {
                assert(ps.take(i as int + 1) =~= ps.take(i as int).push(ps[i as int]));
            }
            if self.is_edited(p, t) {
                let e = copy_bytes(p);
                proof {
                    crate::bytes::lemma_dv_push(queue@, e);
                }
                queue.push(e);
            }
            proof {
                assert forall|q: Seq<u8>|
                    dv(queue@).contains(q) implies (ps.take(i as int + 1).contains(q)
                    && spec_edited(ms, t, q)) by {
                    let k = choose|k: int| 0 <= k < dv(queue@).len() && dv(queue@)[k] == q;
                    if k < oldq.len() {
                        assert(oldq[k] == q);
                        assert(oldq.contains(q));
                        let k2 = choose|k2: int|
                            0 <= k2 < ps.take(i as int).len() && ps.take(i as int)[k2] == q;
                        assert(ps.take(i as int + 1)[k2] == q);
                    } else {
                        assert(q == ps[i as int]);
                        assert(ps.take(i as int + 1)[i as int] == q);
                    }
                }
                assert forall|q: Seq<u8>|
                    (ps.take(i as int + 1).contains(q) && spec_edited(ms, t, q)) implies dv(
                    queue@,
                ).contains(q) by {
                    let k = choose|k: int|
                        0 <= k < ps.take(i as int + 1).len() && #[trigger] ps.take(
                            i as int + 1,
                        )[k] == q;
                    if k < i {
                        assert(ps.take(i as int)[k] == q);
                        assert(ps.take(i as int).contains(q));
                        assert(oldq.contains(q));
                        let k2 = choose|k2: int| 0 <= k2 < oldq.len() && oldq[k2] == q;
                        assert(dv(queue@)[k2] == q);
                    } else {
                        assert(q == ps[i as int]);
                        assert(dv(queue@)[dv(queue@).len() - 1] == q);
                    }
                }
            }
            i = i + 1;
        }
        proof {
            assert(ps.take(i as int) =~= ps);
            assert forall|p: Seq<u8>| dv(queue@).contains(p) implies universe.contains(p) by {
                assert(ps.contains(p));
                assert(ps.to_set().contains(p));
            }
            assert forall|p: Seq<u8>| dv(queue@).contains(p) implies spec_reachable(
                g,
                seedset,
                p,
            ) by {
                assert(ps.contains(p));
                assert(seedset.contains(p));
                lemma_reach_seed(g, seedset, p);
            }
            assert forall|p: Seq<u8>| seedset.contains(p) implies dv(queue@).contains(p) by {
                assert(ps.contains(p) && spec_edited(ms, t, p));
            }
        }
        // propagate: pop, mark, and enqueue everything the popped file is
        // named by, until nothing is pending
        let mut marked: Vec<Vec<u8>> = Vec::new();
        while queue.len() > 0
            invariant
                ps == dv(state.src_paths@),
                state.src_paths == old(state).src_paths,
                state.config == old(state).config,
                state.dep_graph == old(state).dep_graph,
                old(state).wf(),
                g == state.dep_graph,
                seedset == spec_seed(ps, ms, t),
                universe == ps.to_set().union(g.node_set()),
                self.marker_spec() == Some(t),
                ms == self.mtimes_spec(),
                self.wf(),
                self.restore(*state) == *old(state),
                distinct_seq(dv(marked@)),
                forall|p: Seq<u8>| dv(marked@).contains(p) ==> spec_reachable(g, seedset, p),
                forall|p: Seq<u8>| dv(queue@).contains(p) ==> spec_reachable(g, seedset, p),
                forall|p: Seq<u8>| dv(marked@).contains(p) ==> universe.contains(p),
                forall|p: Seq<u8>| dv(queue@).contains(p) ==> universe.contains(p),
                forall|p: Seq<u8>|
                    seedset.contains(p) ==> dv(marked@).contains(p) || dv(queue@).contains(p),
                forall|m: Seq<u8>, d: Seq<u8>|
                    dv(marked@).contains(m) && #[trigger] g.succ_set(m).contains(d) ==> dv(
                        marked@,
                    ).contains(d) || dv(queue@).contains(d),
            decreases universe.difference(dv(marked@).to_set()).len(), queue@.len(),
        {
            let ghost oldq = dv(queue@);
            let ghost oldm = dv(marked@);
            let entry = queue.pop().unwrap();
            proof {
                assert(dv(queue@) =~= oldq.drop_last());
                assert(oldq[oldq.len() - 1] == entry@);
                assert(oldq.contains(entry@));
                assert forall|p: Seq<u8>| dv(queue@).contains(p) implies oldq.contains(p) by {
                    let k = choose|k: int| 0 <= k < dv(queue@).len() && dv(queue@)[k] == p;
                    assert(oldq[k] == p);
                }
            }
            let already = contains_vec(&marked, &entry);
            if !already {
                // enqueue the files that name this one
                match state.dep_graph.get_connected(&entry) {
                    None => {
                        proof {
                            assert(g.succ_set(entry@) == Set::<Seq<u8>>::empty());
                            assert forall|d: Seq<u8>|
                                g.succ_set(entry@).contains(d) implies dv(marked@).contains(d)
                                || dv(queue@).contains(d) by {}
                        }
                    },
                    Some(lst) => {
                        let mut j: usize = 0;
                        while j < lst.len()
                            invariant
                                j <= lst@.len(),
                                g == state.dep_graph,
                                dv(lst@).to_set() == g.succ_set(entry@),
                                forall|k: int|
                                    0 <= k < lst@.len() ==> g.node_set().contains(
                                        #[trigger] dv(lst@)[k],
                                    ),
                                universe == ps.to_set().union(g.node_set()),
                                seedset == spec_seed(ps, ms, t),
                                spec_reachable(g, seedset, entry@),
                                !oldm.contains(entry@),
                                oldm == dv(marked@),
                                forall|p: Seq<u8>|
                                    dv(queue@).contains(p) ==> spec_reachable(g, seedset, p),
                                forall|p: Seq<u8>|
                                    dv(queue@).contains(p) ==> universe.contains(p),
                                forall|p: Seq<u8>|
                                    oldq.drop_last().contains(p) ==> dv(queue@).contains(p),
                                forall|k: int|
                                    0 <= k < j ==> dv(marked@).contains(#[trigger] dv(lst@)[k])
                                        || dv(queue@).contains(dv(lst@)[k]),
                            decreases lst@.len() - j,
                        {
                            let d = &lst[j];
                            proof {
                                assert(dv(lst@)[j as int] == d@);
                                assert(dv(lst@).contains(d@));
                                assert(g.succ_set(entry@).contains(d@));
                            }
                            if !contains_vec(&queue, d) && !contains_vec(&marked, d) {
                                let e = copy_bytes(d);
                                proof {
                                    crate::bytes::lemma_dv_push(queue@, e);
                                    lemma_reach_step(g, seedset, entry@, d@);
                                }
                                queue.push(e);
                            }
                            j = j + 1;
                        }
                        proof {
                            assert forall|d: Seq<u8>|
                                g.succ_set(entry@).contains(d) implies dv(marked@).contains(d)
                                || dv(queue@).contains(d) by {
                                assert(dv(lst@).to_set().contains(d));
                                assert(dv(lst@).contains(d));
                                let k = choose|k: int|
                                    0 <= k < dv(lst@).len() && dv(lst@)[k] == d;
                            }
                        }
                    },
                }
                let e = copy_bytes(&entry);
                proof {
                    crate::bytes::lemma_dv_push(marked@, e);
                    assert(spec_reachable(g, seedset, entry@));
                    assert(universe.contains(entry@));
                }
                marked.push(e);
                proof {
                    assert(dv(marked@) =~= oldm.push(entry@));
                    // the popped entry was unmarked, so the unmarked part of
                    // the universe shrinks
                    state.dep_graph.lemma_node_set_finite();
                    assert(universe.finite());
                    assert(dv(marked@).to_set() =~= oldm.to_set().insert(entry@));
                    let du0 = universe.difference(oldm.to_set());
                    let du1 = universe.difference(dv(marked@).to_set());
                    assert(du1 =~= du0.remove(entry@));
                    assert(du0.contains(entry@));
                    assert(du0.finite());
                    assert(du1.len() < du0.len());
                }
            }
            proof {
                // every queued or marked file stays covered, and the seed
                // and closure facts survive the pop
                assert(dv(marked@).contains(entry@));
                assert forall|p: Seq<u8>|
                    oldq.contains(p) implies dv(marked@).contains(p) || dv(queue@).contains(
                    p,
                ) by {
                    lemma_contains_drop_last(oldq, p);
                    if p != entry@ {
                        assert(oldq.drop_last().contains(p));
                    }
                }
                assert forall|p: Seq<u8>|
                    seedset.contains(p) implies dv(marked@).contains(p) || dv(queue@).contains(
                    p,
                ) by {}
                assert forall|m: Seq<u8>, d: Seq<u8>|
                    dv(marked@).contains(m) && #[trigger] g.succ_set(m).contains(d) implies dv(
                    marked@,
                ).contains(d) || dv(queue@).contains(d) by {
                    if m != entry@ || already {
                        assert(oldm.contains(m));
                        assert(oldm.contains(d) || oldq.contains(d));
                    }
                }
            }
        }
        proof {
            assert(dv(queue@).len() == 0);
            assert forall|p: Seq<u8>| !dv(queue@).contains(p) by {}
            assert forall|b: Seq<u8>|
                spec_reachable(g, seedset, b) implies dv(marked@).to_set().contains(b) by {
                lemma_closed_covers_reachable(g, seedset, dv(marked@).to_set(), b);
            }
            assert(dv(marked@).to_set() =~= Set::new(
                |b: Seq<u8>| spec_reachable(g, seedset, b),
            ));
        }
        state.changed_files = marked;
        proof {
            assert(self.restore(*state) == *old(state));
        }
        Ok(())
    }

    fn undo(&mut self, state: &mut BuildState) -> (r: Result<(), Error>) {
        let mut saved: Option<Vec<Vec<u8>>> = None;
        core::mem::swap(&mut self.old_changed, &mut saved);
        match saved {
            None => {},
            Some(v) => {
                state.changed_files = v;
            },
        }
        proof {
            assert forall|s: BuildState| #[trigger] self.restore(s) == s by {}
        }
        Ok(())
    }
}

} // verus!
