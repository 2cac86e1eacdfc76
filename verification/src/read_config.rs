use vstd::prelude::*;
use crate::action::{Action, Error};
use crate::config::Config;
use crate::state::{config_like, BuildState};

verus! {

/// The stage that installs the project configuration into the shared state.
/// The configuration text is read and parsed outside; this step receives
/// the outcome and either installs the settings or reports the failure,
/// keeping the previous settings for `undo`.
pub struct ReadConfig {
    loaded: Result<Config, Error>,
    old_config: Option<Config>,
}

impl ReadConfig {
    /// The outcome of loading the configuration, as handed in.
    pub closed spec fn loaded_spec(&self) -> Result<Config, Error> {
        self.loaded
    }

    pub fn new(loaded: Result<Config, Error>) -> (r: Box<ReadConfig>)
        ensures
            r.wf(),
            r.is_reset(),
            r.loaded_spec() == loaded,
    {
        let r = ReadConfig { loaded, old_config: None };
        proof {
            assert forall|s: BuildState| #[trigger] r.restore(s) == s by {}
        }
        Box::new(r)
    }
}

impl Action for ReadConfig {
    type State = BuildState;

    open spec fn inv(s: BuildState) -> bool {
        s.wf()
    }

    closed spec fn wf(&self) -> bool {
        true
    }

    closed spec fn restore(&self, s: BuildState) -> BuildState {
        match self.old_config {
            None => s,
            Some(c) => BuildState {
                config: c,
                src_paths: s.src_paths,
                dep_graph: s.dep_graph,
                changed_files: s.changed_files,
            },
        }
    }

    /// Success installs the loaded settings and changes nothing else.
    open spec fn ens(pre_self: ReadConfig, pre: BuildState, post: BuildState) -> bool {
        &&& pre_self.loaded_spec() is Ok
        &&& config_like(post.config, pre_self.loaded_spec()->Ok_0)
        &&& post.src_paths == pre.src_paths
        &&& post.dep_graph == pre.dep_graph
        &&& post.changed_files == pre.changed_files
    }

    /// The step fails exactly when the configuration could not be loaded;
    /// it then returns that error's text unchanged and touches nothing.
    open spec fn err_ens(pre_self: ReadConfig, pre: BuildState, post: BuildState, msg: Seq<u8>) -> bool {
        &&& pre_self.loaded_spec() is Err
        &&& post == pre
        &&& msg == pre_self.loaded_spec()->Err_0@
    }

    /// Installing or restoring settings cannot fail.
    open spec fn undo_err_ens(pre_self: ReadConfig, pre: BuildState) -> bool {
        false
    }

    proof fn restore_preserves_inv(&self, s: BuildState) {
    }

    fn execute(&mut self, state: &mut BuildState) -> (r: Result<(), Error>) {
        match &self.loaded {
            Err(e) => {
                self.old_config = None;
                let out = e.clone();
                proof {
                    assert(self.restore(*state) == *old(state));
                }
                Err(out)
            },
            Ok(c) => {
                let mut fresh = c.clone();
                core::mem::swap(&mut state.config, &mut fresh);
                self.old_config = Some(fresh);
                proof {
                    assert(self.restore(*state) == *old(state));
                }
                Ok(())
            },
        }
    }

    fn undo(&mut self, state: &mut BuildState) -> (r: Result<(), Error>) {
        let mut saved: Option<Config> = None;
        core::mem::swap(&mut self.old_config, &mut saved);
        match saved {
            None => {},
            Some(c) => {
                state.config = c;
            },
        }
        proof {
            assert forall|s: BuildState| #[trigger] self.restore(s) == s by {}
        }
        Ok(())
    }
}

} // verus!
