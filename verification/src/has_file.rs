use vstd::prelude::*;
use crate::action::{Action, Error};
use crate::bytes::{ascii_bytes, concat_bytes, tok};
use crate::state::BuildState;

verus! {

/// A guard step: it succeeds only when the named file was found to exist.
/// Whether it exists is established outside and handed in; the step itself
/// never touches the shared state and has nothing to undo.
pub struct HasFile {
    path: Vec<u8>,
    present: bool,
}

impl HasFile {
    pub closed spec fn path_spec(&self) -> Seq<u8> {
        self.path@
    }

    pub closed spec fn present_spec(&self) -> bool {
        self.present
    }

    pub fn new(path: Vec<u8>, present: bool) -> (r: Box<HasFile>)
        ensures
            r.wf(),
            r.is_reset(),
            r.path_spec() == path@,
            r.present_spec() == present,
    {
        let r = HasFile { path, present };
        proof {
            assert forall|s: BuildState| #[trigger] r.restore(s) == s by {}
        }
        Box::new(r)
    }
}

impl Action for HasFile {
    type State = BuildState;

    open spec fn inv(s: BuildState) -> bool {
        s.wf()
    }

    closed spec fn wf(&self) -> bool {
        true
    }

    closed spec fn restore(&self, s: BuildState) -> BuildState {
        s
    }

    /// Success leaves the state untouched and means the file was present.
    open spec fn ens(pre_self: HasFile, pre: BuildState, post: BuildState) -> bool {
        &&& pre_self.present_spec()
        &&& post == pre
    }

    /// The step fails exactly when the file was absent, naming the file,
    /// and touches nothing either way.
    open spec fn err_ens(pre_self: HasFile, pre: BuildState, post: BuildState, msg: Seq<u8>) -> bool {
        &&& !pre_self.present_spec()
        &&& post == pre
        &&& msg == pre_self.path_spec() + ascii_bytes(" doesnt exist"@)
    }

    /// There is nothing to undo, so undo cannot fail.
    open spec fn undo_err_ens(pre_self: HasFile, pre: BuildState) -> bool {
        false
    }

    proof fn restore_preserves_inv(&self, s: BuildState) {
    }

    fn execute(&mut self, state: &mut BuildState) -> (r: Result<(), Error>) {
        if self.present {
            Ok(())
        } else {
            proof {
                reveal_strlit(" doesnt exist");
            }
            let suffix = tok(" doesnt exist");
            Err(Error::new(concat_bytes(&self.path, &suffix)))
        }
    }

    fn undo(&mut self, state: &mut BuildState) -> (r: Result<(), Error>) {
        Ok(())
    }
}

} // verus!
