use vstd::prelude::*;
use crate::bytes::{
    ascii_bytes, bytes_eq, concat_bytes, copy_bytes, dv, join_bytes, spec_join,
    spec_last_index_of, spec_replace_byte, spec_split, last_index_of, lemma_dv_push,
    lemma_last_index_of, replace_byte, split_bytes, tok,
};

verus! {

broadcast use vstd::std_specs::vec::axiom_spec_len;

pub const SLASH: u8 = 47;

pub const DOT: u8 = 46;

pub const UNDERSCORE: u8 = 95;

/// The path component that names the managed source root.
pub open spec fn root_comp() -> Seq<u8> {
    ascii_bytes("src"@)
}

pub open spec fn dot_comp() -> Seq<u8> {
    seq![DOT]
}

pub open spec fn dotdot_comp() -> Seq<u8> {
    seq![DOT, DOT]
}

/// Resolves `.` and `..` components left to right over an accumulated stack
/// of plain components; `None` when a `..` would climb above the start.
pub open spec fn norm_stack(acc: Seq<Seq<u8>>, comps: Seq<Seq<u8>>) -> Option<Seq<Seq<u8>>>
    decreases comps.len(),
{
    if comps.len() == 0 {
        Some(acc)
    } else {
        let c = comps[0];
        if c == Seq::<u8>::empty() || c == dot_comp() {
            norm_stack(acc, comps.skip(1))
        } else if c == dotdot_comp() {
            if acc.len() == 0 {
                None
            } else {
                norm_stack(acc.drop_last(), comps.skip(1))
            }
        } else {
            norm_stack(acc.push(c), comps.skip(1))
        }
    }
}

/// The normal form of a project path: indirections resolved, and the result
/// accepted only when it still lies under the source root. `None` means the
/// path escapes the managed tree.
pub open spec fn spec_normalize(s: Seq<u8>) -> Option<Seq<u8>> {
    match norm_stack(Seq::<Seq<u8>>::empty(), spec_split(s, SLASH)) {
        None => None,
        Some(cs) => if cs.len() >= 1 && cs[0] == root_comp() {
            Some(spec_join(cs, SLASH))
        } else {
            None
        },
    }
}

/// Strips `.` and `..` indirections from `p` and keeps the result only when
/// it stays inside the source root.
pub fn normalize_path(p: &Vec<u8>) -> (r: Option<Vec<u8>>)
    ensures
        match r {
            Some(v) => spec_normalize(p@) == Some(v@),
            None => spec_normalize(p@) is None,
        },
{
    proof {
        reveal_strlit("src");
        reveal_strlit(".");
        reveal_strlit("..");
    }
    let dot = tok(".");
    let dotdot = tok("..");
    let src = tok("src");
    proof {
        assert(dot@ =~= dot_comp());
        assert(dotdot@ =~= dotdot_comp());
    }
    let comps = split_bytes(p, SLASH);
    let ghost all = dv(comps@);
    let mut acc: Vec<Vec<u8>> = Vec::new();
    let mut i: usize = 0;
    proof {
        assert(all.skip(0) =~= all);
        assert(dv(acc@) =~= Seq::<Seq<u8>>::empty());
    }
    while i < comps.len()
        invariant
            i <= comps@.len(),
            all == dv(comps@),
            all == spec_split(p@, SLASH),
            dot@ == dot_comp(),
            dotdot@ == dotdot_comp(),
            src@ == root_comp(),
            norm_stack(dv(acc@), all.skip(i as int)) == norm_stack(
                Seq::<Seq<u8>>::empty(),
                all,
            ),
        decreases comps@.len() - i,
    {
        let ghost rem = all.skip(i as int);
        proof {
            assert(rem[0] == all[i as int]);
            assert(rem.skip(1) =~= all.skip(i as int + 1));
        }
        let c = &comps[i];
        proof {
            assert(c@ == rem[0]);
            assert(dot_comp().len() == 1);
            assert(dotdot_comp().len() == 2);
        }
        if c.len() == 0 || bytes_eq(c, &dot) {
            proof {
                if c@.len() == 0 {
                    assert(c@ =~= Seq::<u8>::empty());
                }
            }
        } else if bytes_eq(c, &dotdot) {
            if acc.len() == 0 {
                proof {
                    assert(dv(acc@).len() == 0);
                    assert(norm_stack(dv(acc@), rem) is None);
                }
                return None;
            }
            let ghost oldacc = dv(acc@);
            acc.pop();
            proof {
                assert(dv(acc@) =~= oldacc.drop_last());
            }
        } else {
            let ghost oldacc = dv(acc@);
            let e = copy_bytes(c);
            proof {
                lemma_dv_push(acc@, e);
                assert(dv(acc@).push(e@) == oldacc.push(rem[0]));
            }
            acc.push(e);
        }
        i = i + 1;
    }
    proof {
        assert(all.skip(i as int) =~= Seq::<Seq<u8>>::empty());
        assert(norm_stack(dv(acc@), all.skip(i as int)) == Some(dv(acc@)));
    }
    if acc.len() == 0 {
        return None;
    }
    if !bytes_eq(&acc[0], &src) {
        proof {
            assert(dv(acc@)[0] != root_comp());
        }
        return None;
    }
    proof {
        assert(dv(acc@)[0] == root_comp());
    }
    Some(join_bytes(&acc, SLASH))
}

/// A referenced path resolved against the directory of the referring file:
/// everything of `entry` up to its last separator, with `inc` appended.
/// An absolute reference stands alone.
pub open spec fn spec_parent_join(entry: Seq<u8>, inc: Seq<u8>) -> Seq<u8> {
    if inc.len() > 0 && inc[0] == SLASH {
        inc
    } else {
        let i = spec_last_index_of(entry, SLASH);
        if i < 0 {
            inc
        } else {
            entry.take(i + 1) + inc
        }
    }
}

pub fn parent_join(entry: &Vec<u8>, inc: &Vec<u8>) -> (r: Vec<u8>)
    ensures
        r@ == spec_parent_join(entry@, inc@),
{
    if inc.len() > 0 && inc[0] == SLASH {
        return copy_bytes(inc);
    }
    proof {
        lemma_last_index_of(entry@, SLASH);
    }
    match last_index_of(entry, SLASH) {
        None => copy_bytes(inc),
        Some(i) => {
            let prefix = sub_bytes(entry, 0, i + 1);
            proof {
                assert(entry@.subrange(0, i as int + 1) =~= entry@.take(i as int + 1));
            }
            concat_bytes(&prefix, inc)
        },
    }
}

/// The bytes of `s` from `a` (inclusive) to `b` (exclusive).
pub fn sub_bytes(s: &Vec<u8>, a: usize, b: usize) -> (r: Vec<u8>)
    requires
        a <= b <= s@.len(),
    ensures
        r@ == s@.subrange(a as int, b as int),
{
    let mut r: Vec<u8> = Vec::new();
    let mut i: usize = a;
    while i < b
        invariant
            a <= i <= b <= s@.len(),
            r@ == s@.subrange(a as int, i as int),
        decreases b - i,
    {
        proof {
            assert(s@.subrange(a as int, i as int + 1) =~= s@.subrange(a as int, i as int).push(
                s@[i as int],
            ));
        }
        r.push(s[i]);
        i = i + 1;
    }
    r
}

/// The file-name part of a path: everything after the last separator.
pub open spec fn spec_file_name(p: Seq<u8>) -> Seq<u8> {
    p.skip(spec_last_index_of(p, SLASH) + 1)
}

/// The extension of the file name: what follows its last dot, provided that
/// dot is not the leading character. A name with no dot, or only a leading
/// dot, has no extension.
pub open spec fn spec_ext_of(p: Seq<u8>) -> Option<Seq<u8>> {
    let name = spec_file_name(p);
    let d = spec_last_index_of(name, DOT);
    if d >= 1 {
        Some(name.skip(d + 1))
    } else {
        None
    }
}

pub fn ext_of(p: &Vec<u8>) -> (r: Option<Vec<u8>>)
    ensures
        match r {
            Some(v) => spec_ext_of(p@) == Some(v@),
            None => spec_ext_of(p@) is None,
        },
{
    proof {
        lemma_last_index_of(p@, SLASH);
    }
    let name_start: usize = match last_index_of(p, SLASH) {
        None => 0,
        Some(i) => i + 1,
    };
    let name = sub_bytes(p, name_start, p.len());
    proof {
        assert(p@.subrange(name_start as int, p@.len() as int) =~= p@.skip(
            spec_last_index_of(p@, SLASH) + 1,
        ));
        lemma_last_index_of(name@, DOT);
    }
    match last_index_of(&name, DOT) {
        None => None,
        Some(d) => {
            if d >= 1 {
                let e = sub_bytes(&name, d + 1, name.len());
                proof {
                    assert(name@.subrange(d as int + 1, name@.len() as int) =~= name@.skip(
                        d as int + 1,
                    ));
                }
                Some(e)
            } else {
                None
            }
        },
    }
}

/// The path with its extension replaced by `ext` (or `ext` appended when the
/// file name has none).
pub open spec fn spec_set_ext(p: Seq<u8>, ext: Seq<u8>) -> Seq<u8> {
    let ls = spec_last_index_of(p, SLASH);
    let name = p.skip(ls + 1);
    let d = spec_last_index_of(name, DOT);
    if d >= 1 {
        p.take(ls + 1 + d) + seq![DOT] + ext
    } else {
        p + seq![DOT] + ext
    }
}

pub fn set_ext(p: &Vec<u8>, ext: &Vec<u8>) -> (r: Vec<u8>)
    ensures
        r@ == spec_set_ext(p@, ext@),
{
    proof {
        lemma_last_index_of(p@, SLASH);
    }
    let name_start: usize = match last_index_of(p, SLASH) {
        None => 0,
        Some(i) => i + 1,
    };
    let name = sub_bytes(p, name_start, p.len());
    proof {
        assert(p@.subrange(name_start as int, p@.len() as int) =~= p@.skip(
            spec_last_index_of(p@, SLASH) + 1,
        ));
        lemma_last_index_of(name@, DOT);
    }
    let stem_end: usize = match last_index_of(&name, DOT) {
        None => p.len(),
        Some(d) => {
            if d >= 1 {
                name_start + d
            } else {
                p.len()
            }
        },
    };
    let mut r = sub_bytes(p, 0, stem_end);
    proof {
        let ls = spec_last_index_of(p@, SLASH);
        let d = spec_last_index_of(name@, DOT);
        if d >= 1 {
            assert(p@.subrange(0, name_start as int + d) =~= p@.take(ls + 1 + d));
        } else {
            assert(p@.subrange(0, p@.len() as int) =~= p@);
        }
    }
    r.push(DOT);
    let r2 = concat_bytes(&r, ext);
    proof {
        let ls = spec_last_index_of(p@, SLASH);
        let d = spec_last_index_of(name@, DOT);
        if d >= 1 {
            assert(r2@ =~= p@.take(ls + 1 + d) + seq![DOT] + ext@);
        } else {
            assert(r2@ =~= p@ + seq![DOT] + ext@);
        }
    }
    r2
}

/// The root-relative path flattened to a single component: separators
/// replaced by underscores.
pub open spec fn spec_flatten(p: Seq<u8>) -> Seq<u8> {
    spec_replace_byte(p, SLASH, UNDERSCORE)
}

pub fn flatten_path(p: &Vec<u8>) -> (r: Vec<u8>)
    ensures
        r@ == spec_flatten(p@),
{
    replace_byte(p, SLASH, UNDERSCORE)
}

} // verus!
