use vstd::prelude::*;
use crate::action::{Action, Error};
use crate::action_chain::ActionChain;
use crate::args::{spec_collect_rules, spec_load, spec_rule_index, ArgRetriever, ArgRule};
use crate::build_step::BuildStep;
use crate::bytes::{ascii_bytes, dv, tok};
use crate::config::Config;
use crate::fetch_edited_files::FetchEditedFiles;
use crate::gen_dep_graph::{pdv, GenDepGraph};
use crate::gen_src_paths::GenSrcPaths;
use crate::read_config::ReadConfig;

verus! {

/// Whether an argument line asks for a release build: `--release` present.
pub open spec fn spec_release_mode(args: Seq<Seq<u8>>) -> bool {
    let rules = seq![(ascii_bytes("--release"@), 0nat)];
    let out = spec_load(
        rules,
        seq![Option::<Seq<Seq<u8>>>::None],
        Seq::<Seq<u8>>::empty(),
        args,
        0,
    );
    out.0[0] is Some
}

/// The build command: it decides the build mode from the arguments and
/// assembles the pipeline stages over the shared build state. All file
/// reading is done outside and handed to `make_chain`; compiling and
/// linking follow from the rebuild set the chain computes.
pub struct BuildProject {
    release_mode: bool,
}

impl BuildProject {
    /// Whether this build runs in release mode.
    pub closed spec fn release_spec(&self) -> bool {
        self.release_mode
    }

    pub fn new(args: &Vec<Vec<u8>>) -> (r: Box<BuildProject>)
        ensures
            r.release_spec() == spec_release_mode(dv(args@)),
    {
        let mut retriever = Self::create_arg_retriever();
        retriever.load(args);
        let release_mode = Self::release_mode(&retriever);
        proof {
            let rules = seq![(ascii_bytes("--release"@), 0nat)];
            assert(Seq::<Option<Seq<Seq<u8>>>>::new(rules.len(), |k: int| None) =~= seq![
                Option::<Seq<Seq<u8>>>::None,
            ]);
            assert(spec_rule_index(rules, ascii_bytes("--release"@)) == 0);
        }
        Box::new(BuildProject { release_mode })
    }

    /// The argument rules of the build command: the lone `--release` flag.
    pub fn create_arg_retriever() -> (r: ArgRetriever)
        ensures
            r.wf(),
            r.rules() == seq![(ascii_bytes("--release"@), 0nat)],
            r.vals() == seq![Option::<Seq<Seq<u8>>>::None],
            r.untagged_view() == Seq::<Seq<u8>>::empty(),
    {
        proof {
            reveal_strlit("--release");
        }
        let mut rules: Vec<ArgRule> = Vec::new();
        rules.push(ArgRule::new(tok("--release"), 0));
        let r = ArgRetriever::new(&rules);
        proof {
            let rsv = rules@.map_values(|a: ArgRule| (a.tag_spec(), a.count_spec()));
            assert(rsv =~= seq![(ascii_bytes("--release"@), 0nat)]);
            assert(rsv.skip(1) =~= Seq::<(Seq<u8>, nat)>::empty());
            let empty_rules = Seq::<(Seq<u8>, nat)>::empty();
            assert(spec_rule_index(empty_rules, rsv[0].0) == -1);
            assert(spec_collect_rules(empty_rules, rsv) == spec_collect_rules(
                empty_rules.push(rsv[0]),
                rsv.skip(1),
            ));
            assert(spec_collect_rules(empty_rules.push(rsv[0]), rsv.skip(1)) == empty_rules.push(
                rsv[0],
            ));
            assert(empty_rules.push(rsv[0]) =~= seq![(ascii_bytes("--release"@), 0nat)]);
            assert(r.rules() =~= seq![(ascii_bytes("--release"@), 0nat)]);
            assert(r.vals() =~= seq![Option::<Seq<Seq<u8>>>::None]);
        }
        r
    }

    /// Whether the loaded arguments named `--release`.
    pub fn release_mode(retriever: &ArgRetriever) -> (r: bool)
        requires
            retriever.rules() == seq![(ascii_bytes("--release"@), 0nat)],
        ensures
            r == (retriever.spec_tag_args(ascii_bytes("--release"@)) is Some),
    {
        proof {
            reveal_strlit("--release");
        }
        let tag = tok("--release");
        retriever.has_tag(&tag)
    }

    /// Assembles the pipeline: install the configuration, gather the source
    /// set, rebuild the dependency graph, compute the rebuild set. Each
    /// input is the outcome of the outside work the stage depends on.
    pub fn make_chain(
        &self,
        loaded: Result<Config, Error>,
        listing: Result<Vec<Vec<u8>>, Error>,
        texts: Vec<(Vec<u8>, Vec<u8>)>,
        marker: Option<u64>,
        mtimes: Vec<(Vec<u8>, Option<u64>)>,
    ) -> (r: Box<ActionChain<BuildStep>>)
        ensures
            r.wf(),
            r.is_reset(),
            r.mark() == -1,
            r.steps().len() == 4,
            (match r.steps()[0] {
                BuildStep::ReadConfig(a) => a.loaded_spec() == loaded,
                _ => false,
            }),
            (match r.steps()[1] {
                BuildStep::GenSrcPaths(a) => a.listing_spec() == (match listing {
                    Ok(l) => Ok::<Seq<Seq<u8>>, Seq<u8>>(dv(l@)),
                    Err(e) => Err::<Seq<Seq<u8>>, Seq<u8>>(e@),
                }),
                _ => false,
            }),
            (match r.steps()[2] {
                BuildStep::GenDepGraph(a) => a.texts_spec() == pdv(texts@),
                _ => false,
            }),
            (match r.steps()[3] {
                BuildStep::FetchEditedFiles(a) => a.marker_spec() == marker && a.mtimes_spec()
                    == mtimes@.map_values(|e: (Vec<u8>, Option<u64>)| (e.0@, e.1)),
                _ => false,
            }),
    {
        let mut chain = ActionChain::<BuildStep>::new();
        chain.add(BuildStep::ReadConfig(*ReadConfig::new(loaded)));
        chain.add(BuildStep::GenSrcPaths(*GenSrcPaths::new(listing)));
        chain.add(BuildStep::GenDepGraph(*GenDepGraph::new(texts)));
        chain.add(BuildStep::FetchEditedFiles(*FetchEditedFiles::new(marker, mtimes)));
        chain
    }
}

} // verus!
