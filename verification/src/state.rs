use vstd::prelude::*;
use crate::bytes::{distinct_seq, dv};
use crate::config::{Config, Lang};
use crate::graph::Graph;

verus! {

/// The shared containers of one build run: the configuration, the source
/// set, the reversed dependency graph, and the rebuild set. The pipeline
/// owns them; each stage mutates them in turn.
pub struct BuildState {
    pub config: Config,
    pub src_paths: Vec<Vec<u8>>,
    pub dep_graph: Graph,
    pub changed_files: Vec<Vec<u8>>,
}

impl BuildState {
    /// The invariant every stage preserves: the graph is consistent and the
    /// two path lists hold no duplicates (they stand for sets).
    pub open spec fn wf(self) -> bool {
        &&& self.dep_graph.wf()
        &&& distinct_seq(dv(self.src_paths@))
        &&& distinct_seq(dv(self.changed_files@))
    }

    /// A fresh state: default configuration, no sources, an empty graph and
    /// an empty rebuild set.
    pub fn new() -> (r: BuildState)
        ensures
            r.wf(),
            r.src_paths@.len() == 0,
            r.changed_files@.len() == 0,
            r.dep_graph.node_set() == Set::<Seq<u8>>::empty(),
            r.config.lang == Lang::C,
    {
        let empty_name: Vec<u8> = Vec::new();
        BuildState {
            config: Config::new(&empty_name, Lang::C),
            src_paths: Vec::new(),
            dep_graph: Graph::new(),
            changed_files: Vec::new(),
        }
    }
}

/// Two configurations that hold the same settings, byte for byte.
pub open spec fn config_like(a: Config, b: Config) -> bool {
    &&& a.name@ == b.name@
    &&& a.cc@ == b.cc@
    &&& dv(a.inc_dirs@) == dv(b.inc_dirs@)
    &&& dv(a.lib@) == dv(b.lib@)
    &&& dv(a.link_flags@) == dv(b.link_flags@)
    &&& dv(a.debug_flags@) == dv(b.debug_flags@)
    &&& dv(a.release_flags@) == dv(b.release_flags@)
    &&& a.lang == b.lang
}

} // verus!
