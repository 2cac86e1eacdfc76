use vstd::prelude::*;
use crate::args::ArgRetriever;
use crate::bytes::{ascii_bytes, bytes_eq, copy_bytes, lower_ascii, spec_lower, tok};
use crate::config::Lang;

verus! {

/// The commands the tool understands.
#[derive(Clone, Copy, PartialEq, Eq, Structural, Debug)]
pub enum Command {
    New,
    Init,
    Run,
    Build,
    Clean,
    Help,
}

/// The command named by the first argument, compared without regard to
/// case; `None` for anything unknown.
pub open spec fn spec_validate_command(c: Seq<u8>) -> Option<Command> {
    let l = spec_lower(c);
    if l == ascii_bytes("new"@) {
        Some(Command::New)
    } else if l == ascii_bytes("init"@) {
        Some(Command::Init)
    } else if l == ascii_bytes("run"@) {
        Some(Command::Run)
    } else if l == ascii_bytes("build"@) {
        Some(Command::Build)
    } else if l == ascii_bytes("clean"@) {
        Some(Command::Clean)
    } else if l == ascii_bytes("help"@) {
        Some(Command::Help)
    } else {
        None
    }
}

pub fn validate_command(command: &Vec<u8>) -> (r: Option<Command>)
    ensures
        r == spec_validate_command(command@),
{
    proof {
        reveal_strlit("new");
        reveal_strlit("init");
        reveal_strlit("run");
        reveal_strlit("build");
        reveal_strlit("clean");
        reveal_strlit("help");
    }
    let l = lower_ascii(command);
    if bytes_eq(&l, &tok("new")) {
        Some(Command::New)
    } else if bytes_eq(&l, &tok("init")) {
        Some(Command::Init)
    } else if bytes_eq(&l, &tok("run")) {
        Some(Command::Run)
    } else if bytes_eq(&l, &tok("build")) {
        Some(Command::Build)
    } else if bytes_eq(&l, &tok("clean")) {
        Some(Command::Clean)
    } else if bytes_eq(&l, &tok("help")) {
        Some(Command::Help)
    } else {
        None
    }
}

/// The project name decided from the arguments: the value after `--name`,
/// or the first untagged argument.
pub open spec fn spec_project_name(r: &ArgRetriever) -> Option<Seq<u8>> {
    match r.spec_tag_args(ascii_bytes("--name"@)) {
        Some(v) => if v.len() >= 1 {
            Some(v[0])
        } else if r.untagged_view().len() >= 1 {
            Some(r.untagged_view()[0])
        } else {
            None
        },
        None => if r.untagged_view().len() >= 1 {
            Some(r.untagged_view()[0])
        } else {
            None
        },
    }
}

pub fn project_name(r: &ArgRetriever) -> (out: Option<Vec<u8>>)
    ensures
        match out {
            Some(v) => spec_project_name(r) == Some(v@),
            None => spec_project_name(r) is None,
        },
{
    proof {
        reveal_strlit("--name");
    }
    let tag = tok("--name");
    match r.get_tag_args(&tag) {
        Some(v) => {
            if v.len() >= 1 {
                return Some(copy_bytes(&v[0]));
            }
            let un = r.get_untagged();
            if un.len() >= 1 {
                Some(copy_bytes(&un[0]))
            } else {
                None
            }
        },
        None => {
            let un = r.get_untagged();
            if un.len() >= 1 {
                Some(copy_bytes(&un[0]))
            } else {
                None
            }
        },
    }
}

/// The language decided from the arguments: `--lang` absent means C;
/// `c`, `cpp` and `c++` (in any case) name a language; anything else is
/// invalid (`None`).
pub open spec fn spec_project_lang(r: &ArgRetriever) -> Option<Lang> {
    match r.spec_tag_args(ascii_bytes("--lang"@)) {
        None => Some(Lang::C),
        Some(v) => if v.len() >= 1 {
            let l = spec_lower(v[0]);
            if l == ascii_bytes("c"@) {
                Some(Lang::C)
            } else if l == ascii_bytes("cpp"@) || l == ascii_bytes("c++"@) {
                Some(Lang::Cpp)
            } else {
                None
            }
        } else {
            None
        },
    }
}

pub fn project_lang(r: &ArgRetriever) -> (out: Option<Lang>)
    ensures
        out == spec_project_lang(r),
{
    proof {
        reveal_strlit("--lang");
        reveal_strlit("c");
        reveal_strlit("cpp");
        reveal_strlit("c++");
    }
    let tag = tok("--lang");
    match r.get_tag_args(&tag) {
        None => Some(Lang::C),
        Some(v) => {
            if v.len() >= 1 {
                let l = lower_ascii(&v[0]);
                if bytes_eq(&l, &tok("c")) {
                    Some(Lang::C)
                } else if bytes_eq(&l, &tok("cpp")) || bytes_eq(&l, &tok("c++")) {
                    Some(Lang::Cpp)
                } else {
                    None
                }
            } else {
                None
            }
        },
    }
}

} // verus!
