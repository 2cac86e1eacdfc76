use vstd::prelude::*;
use crate::action::{Action, Error};
use crate::bytes::{ascii_bytes, contains_vec, copy_bytes, distinct_seq, dv, lemma_dv_push, tok};
use crate::config::Lang;
use crate::paths::{ext_of, spec_ext_of};
use crate::state::BuildState;

verus! {

broadcast use vstd::std_specs::vec::axiom_spec_len;

/// The source-file extensions of each language, headers included.
pub open spec fn spec_extensions(lang: Lang) -> Seq<Seq<u8>> {
    if lang is C {
        seq![ascii_bytes("c"@), ascii_bytes("i"@), ascii_bytes("h"@)]
    } else {
        seq![
            ascii_bytes("c"@),
            ascii_bytes("cc"@),
            ascii_bytes("cp"@),
            ascii_bytes("cxx"@),
            ascii_bytes("cpp"@),
            ascii_bytes("CPP"@),
            ascii_bytes("c++"@),
            ascii_bytes("C"@),
            ascii_bytes("i"@),
            ascii_bytes("ii"@),
            ascii_bytes("h"@),
            ascii_bytes("hh"@),
            ascii_bytes("H"@),
            ascii_bytes("hp"@),
            ascii_bytes("hxx"@),
            ascii_bytes("hpp"@),
            ascii_bytes("HPP"@),
            ascii_bytes("h++"@),
            ascii_bytes("tcc"@),
        ]
    }
}

/// The listed files kept: those whose extension belongs to `exts`, first
/// occurrence only (the source set is a set).
pub open spec fn spec_select(acc: Seq<Seq<u8>>, l: Seq<Seq<u8>>, exts: Seq<Seq<u8>>) -> Seq<
    Seq<u8>,
>
    decreases l.len(),
{
    if l.len() == 0 {
        acc
    } else {
        let keep = (match spec_ext_of(l[0]) {
            Some(e) => exts.contains(e),
            None => false,
        }) && !acc.contains(l[0]);
        if keep {
            spec_select(acc.push(l[0]), l.skip(1), exts)
        } else {
            spec_select(acc, l.skip(1), exts)
        }
    }
}

/// The stage that fills the source set. The directory walk happens outside;
/// this step receives its outcome (every file path found under the source
/// root, or the error) and keeps the files whose extension matches the
/// configured language.
pub struct GenSrcPaths {
    listing: Result<Vec<Vec<u8>>, Error>,
    old_src_paths: Option<Vec<Vec<u8>>>,
}

impl GenSrcPaths {
    /// The outcome of the directory walk, as handed in.
    pub closed spec fn listing_spec(&self) -> Result<Seq<Seq<u8>>, Seq<u8>> {
        match self.listing {
            Ok(l) => Ok(dv(l@)),
            Err(e) => Err(e@),
        }
    }

    pub fn new(listing: Result<Vec<Vec<u8>>, Error>) -> (r: Box<GenSrcPaths>)
        ensures
            r.wf(),
            r.is_reset(),
            r.listing_spec() == (match listing {
                Ok(l) => Ok::<Seq<Seq<u8>>, Seq<u8>>(dv(l@)),
                Err(e) => Err::<Seq<Seq<u8>>, Seq<u8>>(e@),
            }),
    {
        let r = GenSrcPaths { listing, old_src_paths: None };
        proof {
            assert forall|s: BuildState| #[trigger] r.restore(s) == s by {}
        }
        Box::new(r)
    }

    /// The extension list for `lang`.
    pub fn get_extensions(lang: Lang) -> (r: Vec<Vec<u8>>)
        ensures
            dv(r@) == spec_extensions(lang),
    {
        proof {
            reveal_strlit("c");
            reveal_strlit("i");
            reveal_strlit("h");
        }
        let mut r: Vec<Vec<u8>> = Vec::new();
        match lang {
            Lang::C => {
                r.push(tok("c"));
                r.push(tok("i"));
                r.push(tok("h"));
            },
            Lang::Cpp => {
                proof {
                    reveal_strlit("cc");
                    reveal_strlit("cp");
                    reveal_strlit("cxx");
                    reveal_strlit("cpp");
                    reveal_strlit("CPP");
                    reveal_strlit("c++");
                    reveal_strlit("C");
                    reveal_strlit("ii");
                    reveal_strlit("hh");
                    reveal_strlit("H");
                    reveal_strlit("hp");
                    reveal_strlit("hxx");
                    reveal_strlit("hpp");
                    reveal_strlit("HPP");
                    reveal_strlit("h++");
                    reveal_strlit("tcc");
                }
                r.push(tok("c"));
                r.push(tok("cc"));
                r.push(tok("cp"));
                r.push(tok("cxx"));
                r.push(tok("cpp"));
                r.push(tok("CPP"));
                r.push(tok("c++"));
                r.push(tok("C"));
                r.push(tok("i"));
                r.push(tok("ii"));
                r.push(tok("h"));
                r.push(tok("hh"));
                r.push(tok("H"));
                r.push(tok("hp"));
                r.push(tok("hxx"));
                r.push(tok("hpp"));
                r.push(tok("HPP"));
                r.push(tok("h++"));
                r.push(tok("tcc"));
            },
        }
        proof {
            assert(dv(r@) =~= spec_extensions(lang));
        }
        r
    }
}

impl Action for GenSrcPaths {
    type State = BuildState;

    open spec fn inv(s: BuildState) -> bool {
        s.wf()
    }

    closed spec fn wf(&self) -> bool {
        match self.old_src_paths {
            None => true,
            Some(v) => distinct_seq(dv(v@)),
        }
    }

    closed spec fn restore(&self, s: BuildState) -> BuildState {
        match self.old_src_paths {
            None => s,
            Some(v) => BuildState {
                config: s.config,
                src_paths: v,
                dep_graph: s.dep_graph,
                changed_files: s.changed_files,
            },
        }
    }

    /// Success replaces the source set with the matching files from the
    /// listing, in listing order without repeats; nothing else changes.
    open spec fn ens(pre_self: GenSrcPaths, pre: BuildState, post: BuildState) -> bool {
        &&& pre_self.listing_spec() is Ok
        &&& dv(post.src_paths@) == spec_select(
            Seq::<Seq<u8>>::empty(),
            pre_self.listing_spec()->Ok_0,
            spec_extensions(pre.config.lang),
        )
        &&& post.config == pre.config
        &&& post.dep_graph == pre.dep_graph
        &&& post.changed_files == pre.changed_files
    }

    /// The step fails exactly when the directory walk had failed; it then
    /// returns the walk's error (which names the unreadable directory)
    /// unchanged and touches nothing.
    open spec fn err_ens(pre_self: GenSrcPaths, pre: BuildState, post: BuildState, msg: Seq<u8>) -> bool {
        &&& pre_self.listing_spec() is Err
        &&& post == pre
        &&& msg == pre_self.listing_spec()->Err_0
    }

    /// Filling or restoring the source set cannot fail.
    open spec fn undo_err_ens(pre_self: GenSrcPaths, pre: BuildState) -> bool {
        false
    }

    proof fn restore_preserves_inv(&self, s: BuildState) {
    }

    fn execute(&mut self, state: &mut BuildState) -> (r: Result<(), Error>) {
        match &self.listing {
            Err(e) => {
                self.old_src_paths = None;
                let out = e.clone();
                proof {
                    assert(self.restore(*state) == *old(state));
                }
                Err(out)
            },
            Ok(listing) => {
                let ghost ldv = dv(listing@);
                let ghost exts_spec = spec_extensions(state.config.lang);
                let exts = Self::get_extensions(state.config.lang);
                let mut out: Vec<Vec<u8>> = Vec::new();
                let mut i: usize = 0;
                proof {
                    assert(ldv.skip(0) =~= ldv);
                    assert(dv(out@) =~= Seq::<Seq<u8>>::empty());
                }
                while i < listing.len()
                    invariant
                        i <= listing@.len(),
                        ldv == dv(listing@),
                        dv(exts@) == exts_spec,
                        distinct_seq(dv(out@)),
                        spec_select(dv(out@), ldv.skip(i as int), exts_spec) == spec_select(
                            Seq::<Seq<u8>>::empty(),
                            ldv,
                            exts_spec,
                        ),
                    decreases listing@.len() - i,
                {
                    let ghost rem = ldv.skip(i as int);
                    proof {
                        assert(rem[0] == ldv[i as int]);
                        assert(rem.skip(1) =~= ldv.skip(i as int + 1));
                    }
                    let p = &listing[i];
                    let keep = match ext_of(p) {
                        Some(e) => contains_vec(&exts, &e),
                        None => false,
                    };
                    if keep && !contains_vec(&out, p) {
                        let ghost oldout = dv(out@);
                        let e = copy_bytes(p);
                        proof {
                            lemma_dv_push(out@, e);
                        }
                        out.push(e);
                        proof {
                            assert(forall|j: int| 0 <= j < oldout.len() ==> dv(out@)[j] == oldout[j]);
                        }
                    }
                    i = i + 1;
                }
                proof {
                    assert(ldv.skip(i as int) =~= Seq::<Seq<u8>>::empty());
                }
                let mut tmp = out;
                core::mem::swap(&mut state.src_paths, &mut tmp);
                self.old_src_paths = Some(tmp);
                proof {
                    assert(self.restore(*state) == *old(state));
                }
                Ok(())
            },
        }
    }

    fn undo(&mut self, state: &mut BuildState) -> (r: Result<(), Error>) {
        let mut saved: Option<Vec<Vec<u8>>> = None;
        core::mem::swap(&mut self.old_src_paths, &mut saved);
        match saved {
            None => {},
            Some(v) => {
                state.src_paths = v;
            },
        }
        proof {
            assert forall|s: BuildState| #[trigger] self.restore(s) == s by {}
        }
        Ok(())
    }
}

} // verus!
