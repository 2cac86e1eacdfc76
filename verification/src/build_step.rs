use vstd::prelude::*;
use crate::action::{Action, Error};
use crate::action_chain::ActionChain;
use crate::fetch_edited_files::FetchEditedFiles;
use crate::gen_dep_graph::GenDepGraph;
use crate::gen_src_paths::GenSrcPaths;
use crate::has_file::HasFile;
use crate::read_config::ReadConfig;
use crate::state::BuildState;

verus! {

/// One stage of the build pipeline, so that stages of different kinds can
/// stand together in one action chain.
pub enum BuildStep {
    ReadConfig(ReadConfig),
    GenSrcPaths(GenSrcPaths),
    GenDepGraph(GenDepGraph),
    FetchEditedFiles(FetchEditedFiles),
    HasFile(HasFile),
}

impl Action for BuildStep {
    type State = BuildState;

    open spec fn inv(s: BuildState) -> bool {
        s.wf()
    }

    open spec fn wf(&self) -> bool {
        match self {
            BuildStep::ReadConfig(a) => a.wf(),
            BuildStep::GenSrcPaths(a) => a.wf(),
            BuildStep::GenDepGraph(a) => a.wf(),
            BuildStep::FetchEditedFiles(a) => a.wf(),
            BuildStep::HasFile(a) => a.wf(),
        }
    }

    open spec fn restore(&self, s: BuildState) -> BuildState {
        match self {
            BuildStep::ReadConfig(a) => a.restore(s),
            BuildStep::GenSrcPaths(a) => a.restore(s),
            BuildStep::GenDepGraph(a) => a.restore(s),
            BuildStep::FetchEditedFiles(a) => a.restore(s),
            BuildStep::HasFile(a) => a.restore(s),
        }
    }

    open spec fn ens(pre_self: BuildStep, pre: BuildState, post: BuildState) -> bool {
        match pre_self {
            BuildStep::ReadConfig(a) => ReadConfig::ens(a, pre, post),
            BuildStep::GenSrcPaths(a) => GenSrcPaths::ens(a, pre, post),
            BuildStep::GenDepGraph(a) => GenDepGraph::ens(a, pre, post),
            BuildStep::FetchEditedFiles(a) => FetchEditedFiles::ens(a, pre, post),
            BuildStep::HasFile(a) => HasFile::ens(a, pre, post),
        }
    }

    open spec fn err_ens(pre_self: BuildStep, pre: BuildState, post: BuildState, msg: Seq<u8>) -> bool {
        match pre_self {
            BuildStep::ReadConfig(a) => ReadConfig::err_ens(a, pre, post, msg),
            BuildStep::GenSrcPaths(a) => GenSrcPaths::err_ens(a, pre, post, msg),
            BuildStep::GenDepGraph(a) => GenDepGraph::err_ens(a, pre, post, msg),
            BuildStep::FetchEditedFiles(a) => FetchEditedFiles::err_ens(a, pre, post, msg),
            BuildStep::HasFile(a) => HasFile::err_ens(a, pre, post, msg),
        }
    }

    /// No pipeline stage's undo can fail: each restores an in-memory
    /// snapshot or has nothing to do.
    open spec fn undo_err_ens(pre_self: BuildStep, pre: BuildState) -> bool {
        match pre_self {
            BuildStep::ReadConfig(a) => ReadConfig::undo_err_ens(a, pre),
            BuildStep::GenSrcPaths(a) => GenSrcPaths::undo_err_ens(a, pre),
            BuildStep::GenDepGraph(a) => GenDepGraph::undo_err_ens(a, pre),
            BuildStep::FetchEditedFiles(a) => FetchEditedFiles::undo_err_ens(a, pre),
            BuildStep::HasFile(a) => HasFile::undo_err_ens(a, pre),
        }
    }

    proof fn restore_preserves_inv(&self, s: BuildState) {
        match self {
            BuildStep::ReadConfig(a) => a.restore_preserves_inv(s),
            BuildStep::GenSrcPaths(a) => a.restore_preserves_inv(s),
            BuildStep::GenDepGraph(a) => a.restore_preserves_inv(s),
            BuildStep::FetchEditedFiles(a) => a.restore_preserves_inv(s),
            BuildStep::HasFile(a) => a.restore_preserves_inv(s),
        }
    }

    fn execute(&mut self, state: &mut BuildState) -> (r: Result<(), Error>) {
        match self {
            BuildStep::ReadConfig(a) => a.execute(state),
            BuildStep::GenSrcPaths(a) => a.execute(state),
            BuildStep::GenDepGraph(a) => a.execute(state),
            BuildStep::FetchEditedFiles(a) => a.execute(state),
            BuildStep::HasFile(a) => a.execute(state),
        }
    }

    fn undo(&mut self, state: &mut BuildState) -> (r: Result<(), Error>) {
        match self {
            BuildStep::ReadConfig(a) => a.undo(state),
            BuildStep::GenSrcPaths(a) => a.undo(state),
            BuildStep::GenDepGraph(a) => a.undo(state),
            BuildStep::FetchEditedFiles(a) => a.undo(state),
            BuildStep::HasFile(a) => a.undo(state),
        }
    }
}

/// Undo of a pipeline stage never fails.
pub proof fn lemma_build_step_undo_infallible(s: BuildStep, st: BuildState)
    ensures
        !BuildStep::undo_err_ens(s, st),
{
}

/// Undoing a chain of pipeline stages always succeeds: no stage's undo can
/// fail, so `ActionChain::undo` is forced to return `Ok` and (by its own
/// contract) to restore the pre-execution state in full.
pub proof fn lemma_build_chain_undo_infallible(c: ActionChain<BuildStep>, st: BuildState)
    ensures
        !ActionChain::<BuildStep>::undo_err_ens(c, st),
{
    assert forall|j: int|
        !(0 <= j <= c.mark() && c.mark() < c.steps().len()
            && #[trigger] BuildStep::undo_err_ens(
            c.steps()[j],
            ActionChain::<BuildStep>::unwind_span(c.steps(), c.mark(), j, st),
        )) by {
        lemma_build_step_undo_infallible(
            c.steps()[j],
            ActionChain::<BuildStep>::unwind_span(c.steps(), c.mark(), j, st),
        );
    }
}

} // verus!
