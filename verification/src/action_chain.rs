use vstd::prelude::*;
use crate::action::{Action, Error};

verus! {

broadcast use vstd::std_specs::vec::axiom_spec_len;

/// An ordered list of reversible steps run as one compound unit. The chain
/// remembers the index of the last step it started (the high-water mark);
/// `undo` walks back from that mark, and when an undo fails part-way the
/// mark is moved so that a retry resumes exactly where it stopped.
pub struct ActionChain<A: Action> {
    last_action_index: Option<usize>,
    actions: Vec<A>,
}

impl<A: Action> ActionChain<A> {
    /// The high-water mark as an integer; -1 when no step has run.
    pub closed spec fn mark(&self) -> int {
        match self.last_action_index {
            Some(i) => i as int,
            None => -1,
        }
    }

    /// The steps of the chain, in execution order.
    pub closed spec fn steps(&self) -> Seq<A> {
        self.actions@
    }

    /// The state reached by undoing steps `0..=i` of `s` in reverse order,
    /// starting from `st`.
    pub open spec fn unwind(s: Seq<A>, i: int, st: A::State) -> A::State
        decreases i + 1,
    {
        if i < 0 {
            st
        } else {
            Self::unwind(s, i - 1, s[i].restore(st))
        }
    }

    proof fn lemma_unwind_inv(s: Seq<A>, i: int, st: A::State)
        requires
            forall|j: int| 0 <= j < s.len() ==> (#[trigger] s[j]).wf(),
            i < s.len(),
            A::inv(st),
        ensures
            A::inv(Self::unwind(s, i, st)),
        decreases i + 1,
    {
        if i >= 0 {
            s[i].restore_preserves_inv(st);
            Self::lemma_unwind_inv(s, i - 1, s[i].restore(st));
        }
    }

    /// Unwinding depends only on the steps up to the mark.
    proof fn lemma_unwind_prefix(s1: Seq<A>, s2: Seq<A>, i: int, st: A::State)
        requires
            i < s1.len(),
            i < s2.len(),
            forall|j: int| 0 <= j <= i ==> s1[j] == s2[j],
        ensures
            Self::unwind(s1, i, st) == Self::unwind(s2, i, st),
        decreases i + 1,
    {
        if i >= 0 {
            Self::lemma_unwind_prefix(s1, s2, i - 1, s1[i].restore(st));
        }
    }

    /// The state after undoing steps `hi` down to `lo + 1` of `s`, top
    /// first, starting from `st` (undoing nothing when `hi <= lo`).
    pub open spec fn unwind_span(s: Seq<A>, hi: int, lo: int, st: A::State) -> A::State
        decreases hi - lo,
    {
        if hi <= lo {
            st
        } else {
            Self::unwind_span(s, hi - 1, lo, s[hi].restore(st))
        }
    }

    /// A span of undos peels at the bottom: undoing down to `lo` is undoing
    /// down to `lo + 1` and then undoing step `lo + 1` itself.
    proof fn lemma_unwind_span_bottom(s: Seq<A>, hi: int, lo: int, st: A::State)
        requires
            lo < hi,
        ensures
            Self::unwind_span(s, hi, lo, st) == s[lo + 1].restore(
                Self::unwind_span(s, hi, lo + 1, st),
            ),
        decreases hi - lo,
    {
        if hi == lo + 1 {
            assert(Self::unwind_span(s, hi, lo, st) == Self::unwind_span(
                s,
                hi - 1,
                lo,
                s[hi].restore(st),
            ));
            assert(Self::unwind_span(s, hi - 1, lo, s[hi].restore(st)) == s[hi].restore(st));
            assert(Self::unwind_span(s, hi, lo + 1, st) == st);
        } else {
            Self::lemma_unwind_span_bottom(s, hi - 1, lo, s[hi].restore(st));
            assert(Self::unwind_span(s, hi, lo, st) == Self::unwind_span(
                s,
                hi - 1,
                lo,
                s[hi].restore(st),
            ));
            assert(Self::unwind_span(s, hi, lo + 1, st) == Self::unwind_span(
                s,
                hi - 1,
                lo + 1,
                s[hi].restore(st),
            ));
        }
    }

    /// The states reachable by running steps `0..i` of `s` in order from
    /// `pre`: each step's `ens` holds of consecutive intermediate states.
    pub open spec fn runs_to(s: Seq<A>, i: int, pre: A::State, post: A::State) -> bool
        decreases i,
    {
        if i <= 0 {
            post == pre
        } else {
            exists|mid: A::State|
                Self::runs_to(s, i - 1, pre, mid) && #[trigger] A::ens(s[i - 1], mid, post)
        }
    }

    /// A completed run splits at its last step: some intermediate state is
    /// reached by the earlier steps, and the last step's `ens` bridges it to
    /// the final state. Applying this repeatedly recovers what each stage of
    /// a chain computed from the chain's overall `ens`.
    pub proof fn lemma_runs_to_last(s: Seq<A>, i: int, pre: A::State, post: A::State) -> (mid:
        A::State)
        requires
            0 < i,
            Self::runs_to(s, i, pre, post),
        ensures
            Self::runs_to(s, i - 1, pre, mid),
            A::ens(s[i - 1], mid, post),
    {
        choose|m: A::State| Self::runs_to(s, i - 1, pre, m) && #[trigger] A::ens(s[i - 1], m, post)
    }

    /// Some prefix of the steps runs, then one step fails: the final state
    /// and the returned error are exactly that step's, unmodified.
    pub open spec fn fails_from(s: Seq<A>, pre: A::State, post: A::State, msg: Seq<u8>) -> bool {
        exists|i: int, mid: A::State|
            0 <= i < s.len() && #[trigger] Self::runs_to(s, i, pre, mid) && A::err_ens(
                s[i],
                mid,
                post,
                msg,
            )
    }

    /// One more step extends a run.
    pub proof fn lemma_runs_to_step(s: Seq<A>, i: int, pre: A::State, mid: A::State, post: A::State)
        requires
            0 <= i < s.len(),
            Self::runs_to(s, i, pre, mid),
            A::ens(s[i], mid, post),
        ensures
            Self::runs_to(s, i + 1, pre, post),
    {
        let j = i + 1;
        assert(s[j - 1] == s[i]);
        assert(Self::runs_to(s, j - 1, pre, mid) && A::ens(s[j - 1], mid, post));
        assert(exists|m: A::State|
            Self::runs_to(s, j - 1, pre, m) && #[trigger] A::ens(s[j - 1], m, post));
        assert(Self::runs_to(s, j, pre, post));
    }

    /// A run that reaches a failing step makes the whole list fail with
    /// that step's state and error.
    pub proof fn lemma_fails_from(
        s: Seq<A>,
        i: int,
        pre: A::State,
        mid: A::State,
        post: A::State,
        msg: Seq<u8>,
    )
        requires
            0 <= i < s.len(),
            Self::runs_to(s, i, pre, mid),
            A::err_ens(s[i], mid, post, msg),
        ensures
            Self::fails_from(s, pre, post, msg),
    {
    }

    pub fn new() -> (r: Box<ActionChain<A>>)
        ensures
            r.wf(),
            r.is_reset(),
            r.steps().len() == 0,
            r.mark() == -1,
    {
        let c = ActionChain { last_action_index: None, actions: Vec::new() };
        proof {
            assert forall|s: A::State| #[trigger] c.restore(s) == s by {}
        }
        Box::new(c)
    }

    /// Appends a step to the end of the chain. What an `undo` would restore
    /// is unchanged, since the new step has not run.
    pub fn add(&mut self, action: A)
        requires
            old(self).wf(),
            action.wf(),
        ensures
            final(self).wf(),
            final(self).steps() == old(self).steps().push(action),
            final(self).mark() == old(self).mark(),
            forall|st: A::State| #[trigger] final(self).restore(st) == old(self).restore(st),
    {
        let ghost olds = self.actions@;
        self.actions.push(action);
        proof {
            assert(forall|j: int| 0 <= j < olds.len() ==> self.actions@[j] == olds[j]);
            assert forall|st: A::State| #[trigger] self.restore(st) == old(self).restore(st) by {
                Self::lemma_unwind_prefix(self.actions@, olds, self.mark(), st);
            }
        }
    }
}

impl<A: Action> Action for ActionChain<A> {
    type State = A::State;

    open spec fn inv(s: A::State) -> bool {
        A::inv(s)
    }

    /// Every step is well formed and the mark points into the list.
    closed spec fn wf(&self) -> bool {
        &&& forall|j: int| 0 <= j < self.actions@.len() ==> (#[trigger] self.actions@[j]).wf()
        &&& match self.last_action_index {
            Some(i) => (i as int) < self.actions@.len(),
            None => true,
        }
    }

    /// Undoing the chain means undoing the executed prefix in reverse.
    closed spec fn restore(&self, st: A::State) -> A::State {
        Self::unwind(self.actions@, self.mark(), st)
    }

    /// Running the chain runs every step in order.
    open spec fn ens(pre_self: ActionChain<A>, pre: A::State, post: A::State) -> bool {
        Self::runs_to(pre_self.steps(), pre_self.steps().len() as int, pre, post)
    }

    /// The chain fails exactly by running some prefix and hitting a step
    /// that fails on the state that prefix produced; the state and error it
    /// reports are that step's own, unmodified.
    open spec fn err_ens(pre_self: ActionChain<A>, pre: A::State, post: A::State, msg: Seq<u8>) -> bool {
        Self::fails_from(pre_self.steps(), pre, post, msg)
    }

    /// Undoing the chain can fail only where some executed step's own undo
    /// can fail, at the state the undos above it produce. When every step's
    /// undo is infallible this is false, so the chain's undo must succeed;
    /// in particular an already-reset chain (mark -1) always undoes as a
    /// successful no-op.
    open spec fn undo_err_ens(pre_self: ActionChain<A>, pre: A::State) -> bool {
        exists|j: int|
            0 <= j <= pre_self.mark() && pre_self.mark() < pre_self.steps().len()
                && #[trigger] A::undo_err_ens(
                pre_self.steps()[j],
                Self::unwind_span(pre_self.steps(), pre_self.mark(), j, pre),
            )
    }

    proof fn restore_preserves_inv(&self, s: A::State) {
        Self::lemma_unwind_inv(self.actions@, self.mark(), s);
    }

    /// Runs the steps in order, moving the mark to each step as it starts.
    /// On the first failure the error is returned at once; the steps already
    /// run (including the failed one) stay recorded for `undo`.
    fn execute(&mut self, state: &mut A::State) -> (r: Result<(), Error>) {
        let n = self.actions.len();
        let mut i: usize = 0;
        while i < n
            invariant
                n == self.actions@.len(),
                n == old(self).actions@.len(),
                i <= n,
                forall|j: int| 0 <= j < n ==> (#[trigger] self.actions@[j]).wf(),
                forall|j: int| i <= j < n ==> self.actions@[j] == old(self).actions@[j],
                A::inv(*state),
                Self::unwind(self.actions@, i as int - 1, *state) == *old(state),
                Self::runs_to(old(self).actions@, i as int, *old(state), *state),
                i > 0 ==> self.last_action_index == Some((i - 1) as usize),
                i == 0 ==> self.last_action_index == old(self).last_action_index,
            decreases n - i,
        {
            self.last_action_index = Some(i);
            let ghost s_before = self.actions@;
            let ghost pre = *state;
            let mut a = self.actions.remove(i);
            let ghost a0 = a;
            let res = a.execute(state);
            self.actions.insert(i, a);
            proof {
                assert(self.actions@ =~= s_before.update(i as int, self.actions@[i as int]));
                assert(self.actions@[i as int].restore(*state) == pre);
                Self::lemma_unwind_prefix(self.actions@, s_before, i as int - 1, pre);
                assert(Self::unwind(self.actions@, i as int, *state) == *old(state));
                assert(a0 == old(self).actions@[i as int]);
            }
            if let Err(e) = res {
                proof {
                    assert(Self::runs_to(old(self).actions@, i as int, *old(state), pre));
                    assert(A::err_ens(old(self).actions@[i as int], pre, *state, e@));
                    Self::lemma_fails_from(
                        old(self).actions@,
                        i as int,
                        *old(state),
                        pre,
                        *state,
                        e@,
                    );
                }
                return Err(e);
            }
            proof {
                assert(Self::runs_to(old(self).actions@, i as int, *old(state), pre));
                assert(A::ens(old(self).actions@[i as int], pre, *state));
                Self::lemma_runs_to_step(old(self).actions@, i as int, *old(state), pre, *state);
            }
            i = i + 1;
        }
        proof {
            assert(Self::ens(*old(self), *old(state), *state));
        }
        Ok(())
    }

    /// Walks backward from the high-water mark, undoing each step. If an
    /// undo fails at position `j`, the mark is reset to `j` so a retry
    /// resumes there; what a full rollback would restore is unchanged.
    fn undo(&mut self, state: &mut A::State) -> (r: Result<(), Error>) {
        let idx_opt = self.last_action_index;
        match idx_opt {
            None => Ok(()),
            Some(index) => {
                let ghost target = Self::unwind(old(self).actions@, index as int, *old(state));
                let mut j: usize = index;
                loop
                    invariant_except_break
                        old(self).mark() == index as int,
                        target == Self::unwind(old(self).actions@, index as int, *old(state)),
                        j <= index,
                        index < self.actions@.len(),
                        self.actions@.len() == old(self).actions@.len(),
                        forall|k: int|
                            0 <= k < self.actions@.len() ==> (#[trigger] self.actions@[k]).wf(),
                        forall|k: int|
                            0 <= k <= j ==> self.actions@[k] == old(self).actions@[k],
                        A::inv(*state),
                        Self::unwind(self.actions@, j as int, *state) == target,
                        *state == Self::unwind_span(
                            old(self).actions@,
                            index as int,
                            j as int,
                            *old(state),
                        ),
                        self.last_action_index == Some(index),
                    ensures
                        old(self).mark() == index as int,
                        target == Self::unwind(old(self).actions@, index as int, *old(state)),
                        index < self.actions@.len(),
                        self.actions@.len() == old(self).actions@.len(),
                        forall|k: int|
                            0 <= k < self.actions@.len() ==> (#[trigger] self.actions@[k]).wf(),
                        A::inv(*state),
                        *state == target,
                    decreases j,
                {
                    let ghost s_before = self.actions@;
                    let ghost pre = *state;
                    let mut a = self.actions.remove(j);
                    let res = a.undo(state);
                    self.actions.insert(j, a);
                    proof {
                        assert(self.actions@ =~= s_before.update(j as int, self.actions@[j as int]));
                        Self::lemma_unwind_prefix(
                            self.actions@,
                            s_before,
                            j as int - 1,
                            s_before[j as int].restore(pre),
                        );
                    }
                    match res {
                        Err(e) => {
                            proof {
                                assert(self.actions@[j as int].restore(*state) == s_before[
                                    j as int
                                ].restore(pre));
                                assert(Self::unwind(self.actions@, j as int, *state) == target);
                            }
                            self.last_action_index = Some(j);
                            proof {
                                assert(self.restore(*state) == target);
                                assert(old(self).mark() == index as int);
                                assert(old(self).restore(*old(state)) == target);
                                // the failing step's own undo failure
                                // condition held at the state the undos
                                // above it had produced
                                assert(s_before[j as int] == old(self).actions@[j as int]);
                                assert(A::undo_err_ens(s_before[j as int], pre));
                                assert(old(self).steps() == old(self).actions@);
                                assert(0 <= j as int <= old(self).mark());
                                assert(old(self).mark() < old(self).steps().len());
                                assert(pre == Self::unwind_span(
                                    old(self).steps(),
                                    old(self).mark(),
                                    j as int,
                                    *old(state),
                                ));
                                assert(A::undo_err_ens(
                                    old(self).steps()[j as int],
                                    Self::unwind_span(
                                        old(self).steps(),
                                        old(self).mark(),
                                        j as int,
                                        *old(state),
                                    ),
                                ));
                                assert(Self::undo_err_ens(*old(self), *old(state)));
                            }
                            return Err(e);
                        },
                        Ok(_) => {
                            proof {
                                assert(*state == s_before[j as int].restore(pre));
                                assert(Self::unwind(self.actions@, j as int - 1, *state)
                                    == target);
                                assert(s_before[j as int] == old(self).actions@[j as int]);
                                Self::lemma_unwind_span_bottom(
                                    old(self).actions@,
                                    index as int,
                                    j as int - 1,
                                    *old(state),
                                );
                                assert(*state == Self::unwind_span(
                                    old(self).actions@,
                                    index as int,
                                    j as int - 1,
                                    *old(state),
                                ));
                            }
                            if j == 0 {
                                break;
                            }
                            j = j - 1;
                        },
                    }
                }
                self.last_action_index = None;
                proof {
                    assert forall|s: A::State| #[trigger] self.restore(s) == s by {}
                }
                Ok(())
            },
        }
    }
}

/// Undoing right after executing brings the shared state back to where it
/// started: `execute` guarantees that applying the chain's `restore` to the
/// state it leaves behind yields the pre-execution state, and a successful
/// `undo` applies exactly that `restore`.
pub proof fn lemma_chain_round_trip<A: Action>(
    chain: ActionChain<A>,
    before: A::State,
    after_execute: A::State,
    after_undo: A::State,
)
    requires
        chain.restore(after_execute) == before,
        after_undo == chain.restore(after_execute),
    ensures
        after_undo == before,
{
}

/// A failed `undo` keeps the rollback target: whatever state a full undo
/// would have restored before the failure, a full undo after it restores
/// the same state, so a retry resumes rather than loses work.
pub proof fn lemma_partial_rollback_resumes<A: Action>(
    failed: ActionChain<A>,
    before_undo: A::State,
    after_failed: A::State,
    original: ActionChain<A>,
    target: A::State,
)
    requires
        original.restore(before_undo) == target,
        failed.restore(after_failed) == original.restore(before_undo),
    ensures
        failed.restore(after_failed) == target,
{
}

} // verus!
