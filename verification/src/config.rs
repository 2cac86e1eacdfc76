use vstd::prelude::*;
use crate::bytes::{ascii_bytes, copy_bytes, copy_vecs, dv, tok};

verus! {

/// The source language of a project; it selects the compiler and the
/// source-file extension set.
#[derive(Clone, Copy, PartialEq, Eq, Structural, Debug)]
pub enum Lang {
    C,
    Cpp,
}

impl Lang {
    /// The short name of the language, as it appears in arguments.
    pub fn name_bytes(&self) -> (r: Vec<u8>)
        ensures
            r@ == if self is C {
                ascii_bytes("c"@)
            } else {
                ascii_bytes("cpp"@)
            },
    {
        proof {
            reveal_strlit("c");
            reveal_strlit("cpp");
        }
        match self {
            Lang::C => tok("c"),
            Lang::Cpp => tok("cpp"),
        }
    }
}

/// Build settings for one project: names and flags are byte strings, read
/// once per pipeline run. `inc_dirs` and `lib` are the header and library
/// search directories handed to the toolchain.
pub struct Config {
    pub name: Vec<u8>,
    pub cc: Vec<u8>,
    pub inc_dirs: Vec<Vec<u8>>,
    pub lib: Vec<Vec<u8>>,
    pub link_flags: Vec<Vec<u8>>,
    pub debug_flags: Vec<Vec<u8>>,
    pub release_flags: Vec<Vec<u8>>,
    pub lang: Lang,
}

/// The name of the default header search directory of a fresh project
/// (spelled out byte by byte).
pub open spec fn inc_dir_name() -> Seq<u8> {
    seq![105u8, 110u8, 99u8, 108u8, 117u8, 100u8, 101u8]
}

fn inc_dir_name_vec() -> (r: Vec<u8>)
    ensures
        r@ == inc_dir_name(),
{
    let r: Vec<u8> = vec![105u8, 110u8, 99u8, 108u8, 117u8, 100u8, 101u8];
    proof {
        assert(r@ =~= inc_dir_name());
    }
    r
}

impl Config {
    /// The default configuration for a fresh project of the given name and
    /// language.
    pub fn new(name: &Vec<u8>, lang: Lang) -> (r: Config)
        ensures
            r.name@ == name@,
            r.cc@ == if lang is C {
                ascii_bytes("gcc"@)
            } else {
                ascii_bytes("g++"@)
            },
            dv(r.inc_dirs@) == seq![inc_dir_name()],
            dv(r.lib@) == seq![ascii_bytes("lib"@)],
            dv(r.link_flags@) == Seq::<Seq<u8>>::empty(),
            dv(r.debug_flags@) == seq![ascii_bytes("-Wall"@), ascii_bytes("-Wextra"@)],
            dv(r.release_flags@) == seq![
                ascii_bytes("-Wall"@),
                ascii_bytes("-Wextra"@),
                ascii_bytes("-O2"@),
            ],
            r.lang == lang,
    {
        proof {
            reveal_strlit("gcc");
            reveal_strlit("g++");
            reveal_strlit("lib");
            reveal_strlit("-Wall");
            reveal_strlit("-Wextra");
            reveal_strlit("-O2");
        }
        let cc = match lang {
            Lang::C => tok("gcc"),
            Lang::Cpp => tok("g++"),
        };
        let mut inc_dirs: Vec<Vec<u8>> = Vec::new();
        inc_dirs.push(inc_dir_name_vec());
        let mut lib: Vec<Vec<u8>> = Vec::new();
        lib.push(tok("lib"));
        let link_flags: Vec<Vec<u8>> = Vec::new();
        let mut debug_flags: Vec<Vec<u8>> = Vec::new();
        debug_flags.push(tok("-Wall"));
        debug_flags.push(tok("-Wextra"));
        let mut release_flags: Vec<Vec<u8>> = Vec::new();
        release_flags.push(tok("-Wall"));
        release_flags.push(tok("-Wextra"));
        release_flags.push(tok("-O2"));
        let r = Config {
            name: copy_bytes(name),
            cc,
            inc_dirs,
            lib,
            link_flags,
            debug_flags,
            release_flags,
            lang,
        };
        proof {
            assert(dv(r.inc_dirs@) =~= seq![inc_dir_name()]);
            assert(dv(r.lib@) =~= seq![ascii_bytes("lib"@)]);
            assert(dv(r.link_flags@) =~= Seq::<Seq<u8>>::empty());
            assert(dv(r.debug_flags@) =~= seq![ascii_bytes("-Wall"@), ascii_bytes("-Wextra"@)]);
            assert(dv(r.release_flags@) =~= seq![
                ascii_bytes("-Wall"@),
                ascii_bytes("-Wextra"@),
                ascii_bytes("-O2"@),
            ]);
        }
        r
    }
}

impl Clone for Config {
    /// A clone carries the same settings, byte for byte.
    fn clone(&self) -> (r: Config)
        ensures
            r.name@ == self.name@,
            r.cc@ == self.cc@,
            dv(r.inc_dirs@) == dv(self.inc_dirs@),
            dv(r.lib@) == dv(self.lib@),
            dv(r.link_flags@) == dv(self.link_flags@),
            dv(r.debug_flags@) == dv(self.debug_flags@),
            dv(r.release_flags@) == dv(self.release_flags@),
            r.lang == self.lang,
    {
        Config {
            name: copy_bytes(&self.name),
            cc: copy_bytes(&self.cc),
            inc_dirs: copy_vecs(&self.inc_dirs),
            lib: copy_vecs(&self.lib),
            link_flags: copy_vecs(&self.link_flags),
            debug_flags: copy_vecs(&self.debug_flags),
            release_flags: copy_vecs(&self.release_flags),
            lang: self.lang,
        }
    }
}

} // verus!
