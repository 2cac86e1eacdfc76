use vstd::prelude::*;

verus! {

/// An error carried through the build pipeline. The message is kept as raw
/// bytes so that file paths (which are byte strings here) can be spliced into
/// it; the binary renders it for display at the outermost layer.
pub struct Error {
    msg: Vec<u8>,
}

impl View for Error {
    type V = Seq<u8>;

    closed spec fn view(&self) -> Seq<u8> {
        self.msg@
    }
}

impl Error {
    pub fn new(msg: Vec<u8>) -> (r: Error)
        ensures
            r@ == msg@,
    {
        Error { msg }
    }

    pub fn get_msg(&self) -> (r: &Vec<u8>)
        ensures
            r@ == self@,
    {
        &self.msg
    }

    /// Attach caller context in front of the original message, keeping the
    /// original text intact.
    pub fn prepend(self, prefix: &Vec<u8>) -> (r: Error)
        ensures
            r@ == prefix@ + self@,
    {
        let mut msg: Vec<u8> = Vec::new();
        let mut i: usize = 0;
        while i < prefix.len()
            invariant
                i <= prefix.len(),
                msg@ == prefix@.take(i as int),
            decreases prefix.len() - i,
        {
            msg.push(prefix[i]);
            i = i + 1;
        }
        proof {
            assert(msg@ == prefix@);
        }
        let mut j: usize = 0;
        while j < self.msg.len()
            invariant
                j <= self.msg.len(),
                msg@ == prefix@ + self.msg@.take(j as int),
            decreases self.msg.len() - j,
        {
            msg.push(self.msg[j]);
            j = j + 1;
        }
        proof {
            assert(msg@ == prefix@ + self.msg@);
        }
        Error { msg }
    }
}

impl Clone for Error {
    fn clone(&self) -> (r: Error)
        ensures
            r@ == self@,
    {
        let mut msg: Vec<u8> = Vec::new();
        let mut i: usize = 0;
        while i < self.msg.len()
            invariant
                i <= self.msg.len(),
                msg@ == self.msg@.take(i as int),
            decreases self.msg.len() - i,
        {
            msg.push(self.msg[i]);
            i = i + 1;
        }
        proof {
            assert(msg@ == self.msg@);
        }
        Error { msg }
    }
}

/// A reversible unit of work over some shared state. `execute` performs the
/// step; `undo` reverses it. The ghost function `restore` describes, as a
/// mathematical function of the action's private bookkeeping, what a
/// successful `undo` would make of any state handed to it, so that a chain of
/// actions can reason about rolling back a prefix of executed steps.
pub trait Action: Sized {
    type State;

    /// The well-formedness condition that the shared state satisfies before
    /// and after every step.
    spec fn inv(s: Self::State) -> bool;

    /// Well-formedness of the action's own bookkeeping (for instance, that a
    /// saved snapshot itself satisfies the state invariant).
    spec fn wf(&self) -> bool;

    /// What a successful `undo` would turn the state `s` into.
    spec fn restore(&self, s: Self::State) -> Self::State;

    /// What a successful `execute` computes: how the state left behind
    /// relates to the action and the state as they were beforehand.
    spec fn ens(pre_self: Self, pre: Self::State, post: Self::State) -> bool;

    /// What a failed `execute` means: under which condition failure may be
    /// reported, what the step left of the state, and the exact error text
    /// it returned.
    spec fn err_ens(pre_self: Self, pre: Self::State, post: Self::State, msg: Seq<u8>) -> bool;

    /// The condition under which `undo` may report failure. A step whose
    /// undo cannot fail defines this as `false`, and its `undo` is thereby
    /// forced to succeed.
    spec fn undo_err_ens(pre_self: Self, pre: Self::State) -> bool;

    /// An action with nothing recorded to reverse leaves any state unchanged.
    open spec fn is_reset(&self) -> bool {
        forall|s: Self::State| #[trigger] self.restore(s) == s
    }

    /// Undoing a well-formed action can never break the state invariant.
    proof fn restore_preserves_inv(&self, s: Self::State)
        requires
            self.wf(),
            Self::inv(s),
        ensures
            Self::inv(self.restore(s)),
    ;

    /// Perform the step. Whether it succeeds or fails, the action records
    /// enough to put the state back: applying `restore` to the state left
    /// behind yields exactly the state the step started from.
    fn execute(&mut self, state: &mut Self::State) -> (r: Result<(), Error>)
        requires
            old(self).wf(),
            Self::inv(*old(state)),
        ensures
            final(self).wf(),
            Self::inv(*final(state)),
            final(self).restore(*final(state)) == *old(state),
            r is Ok ==> Self::ens(*old(self), *old(state), *final(state)),
            r is Err ==> Self::err_ens(*old(self), *old(state), *final(state), r->Err_0@),
    ;

    /// Reverse the last `execute`. On success the state is exactly what
    /// `restore` promised and the bookkeeping is cleared; on failure nothing
    /// recorded is lost, so a later retry still restores the same state.
    /// Failure is allowed only where `undo_err_ens` holds, so an action
    /// that declares it `false` is bound to undo successfully.
    fn undo(&mut self, state: &mut Self::State) -> (r: Result<(), Error>)
        requires
            old(self).wf(),
            Self::inv(*old(state)),
        ensures
            final(self).wf(),
            Self::inv(*final(state)),
            r is Ok ==> *final(state) == old(self).restore(*old(state)),
            r is Ok ==> final(self).is_reset(),
            r is Err ==> final(self).restore(*final(state)) == old(self).restore(*old(state)),
            r is Err ==> Self::undo_err_ens(*old(self), *old(state)),
    ;
}

} // verus!
