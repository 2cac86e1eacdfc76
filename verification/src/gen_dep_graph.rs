use vstd::prelude::*;
use crate::action::{Action, Error};
use crate::bytes::{
    ascii_bytes, bytes_eq, concat_bytes, contains_byte, contains_seq, copy_bytes, dv, lemma_dv_push,
    remove_all, spec_contains_seq, spec_remove_all, spec_split, spec_trim, split_bytes, tok,
    trim,
};
use crate::graph::Graph;
use crate::paths::{normalize_path, parent_join, spec_normalize, spec_parent_join};
use crate::state::BuildState;

verus! {

broadcast use vstd::std_specs::vec::axiom_spec_len;

pub const QUOTE: u8 = 34;

pub const NEWLINE: u8 = 10;

/// The directive keyword that names a header dependency, spelled out byte
/// by byte.
pub open spec fn directive_kw() -> Seq<u8> {
    seq![35u8, 105u8, 110u8, 99u8, 108u8, 117u8, 100u8, 101u8]
}

fn directive_kw_vec() -> (r: Vec<u8>)
    ensures
        r@ == directive_kw(),
{
    let r: Vec<u8> = vec![35u8, 105u8, 110u8, 99u8, 108u8, 117u8, 100u8, 101u8];
    proof {
        assert(r@ =~= directive_kw());
    }
    r
}

/// A directive line reduced to the path it names: the keyword and the
/// quotes removed, surrounding whitespace trimmed.
pub open spec fn spec_clean_line(line: Seq<u8>) -> Seq<u8> {
    spec_trim(spec_remove_all(spec_remove_all(line, directive_kw()), seq![QUOTE]))
}

/// The paths named by quoted directives: one entry for each line that holds
/// the keyword and a quote. Lines using the angle-bracket form have no
/// quote and contribute nothing.
pub open spec fn spec_refs_of_lines(lines: Seq<Seq<u8>>) -> Seq<Seq<u8>>
    decreases lines.len(),
{
    if lines.len() == 0 {
        Seq::<Seq<u8>>::empty()
    } else {
        let rest = spec_refs_of_lines(lines.skip(1));
        if spec_contains_seq(lines[0], directive_kw()) && lines[0].contains(QUOTE) {
            seq![spec_clean_line(lines[0])] + rest
        } else {
            rest
        }
    }
}

/// The quoted header references of a source text, line by line.
pub open spec fn spec_header_refs(code: Seq<u8>) -> Seq<Seq<u8>> {
    spec_refs_of_lines(spec_split(code, NEWLINE))
}

/// The text recorded for `p`, if any: first match wins.
pub open spec fn spec_text_of(texts: Seq<(Seq<u8>, Seq<u8>)>, p: Seq<u8>) -> Option<Seq<u8>>
    decreases texts.len(),
{
    if texts.len() == 0 {
        None
    } else if texts[0].0 == p {
        Some(texts[0].1)
    } else {
        spec_text_of(texts.skip(1), p)
    }
}

/// The pair view of a list of path pairs.
pub open spec fn pdv(v: Seq<(Vec<u8>, Vec<u8>)>) -> Seq<(Seq<u8>, Seq<u8>)> {
    v.map_values(|e: (Vec<u8>, Vec<u8>)| (e.0@, e.1@))
}

/// Every path of `ps` normalizes: none escapes the source root.
pub open spec fn all_normalize(ps: Seq<Seq<u8>>) -> bool {
    forall|j: int| 0 <= j < ps.len() ==> (#[trigger] spec_normalize(ps[j])) is Some
}

/// The node identifiers of the dependency graph: the normal forms of the
/// source set.
pub open spec fn spec_nodes(ps: Seq<Seq<u8>>) -> Set<Seq<u8>> {
    Set::new(|n: Seq<u8>| exists|j: int| 0 <= j < ps.len() && spec_normalize(#[trigger] ps[j]) == Some(n))
}

/// The edges contributed by one file: for each reference, an edge from the
/// referenced file's normal form to `b`, the normal form of the file
/// itself. `None` when a reference escapes the source root.
pub open spec fn spec_file_edges(entry: Seq<u8>, b: Seq<u8>, refs: Seq<Seq<u8>>) -> Option<
    Seq<(Seq<u8>, Seq<u8>)>,
>
    decreases refs.len(),
{
    if refs.len() == 0 {
        Some(Seq::<(Seq<u8>, Seq<u8>)>::empty())
    } else {
        match spec_normalize(spec_parent_join(entry, refs[0])) {
            None => None,
            Some(a) => match spec_file_edges(entry, b, refs.skip(1)) {
                None => None,
                Some(rest) => Some(seq![(a, b)] + rest),
            },
        }
    }
}

/// The edges of all files from position `i` on: each file must have a
/// recorded text, and every reference must stay inside the source root.
pub open spec fn spec_all_edges(
    ps: Seq<Seq<u8>>,
    texts: Seq<(Seq<u8>, Seq<u8>)>,
    i: int,
) -> Option<Seq<(Seq<u8>, Seq<u8>)>>
    decreases ps.len() - i,
{
    if i < 0 || i >= ps.len() {
        Some(Seq::<(Seq<u8>, Seq<u8>)>::empty())
    } else {
        match spec_text_of(texts, ps[i]) {
            None => None,
            Some(t) => match spec_normalize(ps[i]) {
                None => None,
                Some(b) => match spec_file_edges(ps[i], b, spec_header_refs(t)) {
                    None => None,
                    Some(es) => match spec_all_edges(ps, texts, i + 1) {
                        None => None,
                        Some(rest) => Some(es + rest),
                    },
                },
            },
        }
    }
}

/// The error text of a source path that cannot be brought under the root.
pub open spec fn simplify_err_msg() -> Seq<u8> {
    ascii_bytes("Failed to simplify dependency path"@)
}

/// The error text of a source file whose contents were not handed in.
pub open spec fn read_err_msg() -> Seq<u8> {
    ascii_bytes("Failed to read src file"@)
}

/// The error text of a reference that escapes the source root, naming the
/// resolved reference and the file it stood in.
pub open spec fn validate_err_msg(joined: Seq<u8>, entry: Seq<u8>) -> Seq<u8> {
    ascii_bytes("Failed to validate header reference "@) + joined + ascii_bytes(" found in "@)
        + entry
}

/// The message for the first reference of `entry` among `refs` that escapes
/// the source root (meaningful only when one does).
pub open spec fn spec_file_err(entry: Seq<u8>, refs: Seq<Seq<u8>>) -> Seq<u8>
    decreases refs.len(),
{
    if refs.len() == 0 {
        Seq::<u8>::empty()
    } else if spec_normalize(spec_parent_join(entry, refs[0])) is None {
        validate_err_msg(spec_parent_join(entry, refs[0]), entry)
    } else {
        spec_file_err(entry, refs.skip(1))
    }
}

/// The message of the first failure met while gathering edges, file by file
/// from position `i` (meaningful only when gathering fails).
pub open spec fn spec_edges_err(ps: Seq<Seq<u8>>, texts: Seq<(Seq<u8>, Seq<u8>)>, i: int) -> Seq<
    u8,
>
    decreases ps.len() - i,
{
    if i < 0 || i >= ps.len() {
        Seq::<u8>::empty()
    } else {
        match spec_text_of(texts, ps[i]) {
            None => read_err_msg(),
            Some(t) => if spec_file_edges(
                ps[i],
                spec_normalize(ps[i])->0,
                spec_header_refs(t),
            ) is None {
                spec_file_err(ps[i], spec_header_refs(t))
            } else {
                spec_edges_err(ps, texts, i + 1)
            },
        }
    }
}

/// The error text of a failed graph rebuild: the path-validation message
/// when some source path escapes the root, else the first gathering
/// failure's message.
pub open spec fn spec_dep_err(ps: Seq<Seq<u8>>, texts: Seq<(Seq<u8>, Seq<u8>)>) -> Seq<u8> {
    if !all_normalize(ps) {
        simplify_err_msg()
    } else {
        spec_edges_err(ps, texts, 0)
    }
}

/// Every edge of one file points back at that file.
proof fn lemma_file_edges_snd(entry: Seq<u8>, b: Seq<u8>, refs: Seq<Seq<u8>>)
    ensures
        spec_file_edges(entry, b, refs) is Some ==> forall|m: int|
            0 <= m < spec_file_edges(entry, b, refs)->0.len() ==> (#[trigger] spec_file_edges(
                entry,
                b,
                refs,
            )->0[m]).1 == b,
    decreases refs.len(),
{
    if refs.len() > 0 {
        lemma_file_edges_snd(entry, b, refs.skip(1));
    }
}

/// The head of every collected edge is a source file's normal form.
proof fn lemma_all_edges_snd(ps: Seq<Seq<u8>>, texts: Seq<(Seq<u8>, Seq<u8>)>, i: int)
    ensures
        spec_all_edges(ps, texts, i) is Some ==> forall|m: int|
            0 <= m < spec_all_edges(ps, texts, i)->0.len() ==> spec_nodes(ps).contains(
                (#[trigger] spec_all_edges(ps, texts, i)->0[m]).1,
            ),
    decreases ps.len() - i,
{
    if 0 <= i < ps.len() {
        lemma_all_edges_snd(ps, texts, i + 1);
        if spec_all_edges(ps, texts, i) is Some {
            let t = spec_text_of(texts, ps[i])->0;
            let b = spec_normalize(ps[i])->0;
            let es = spec_file_edges(ps[i], b, spec_header_refs(t))->0;
            let rest = spec_all_edges(ps, texts, i + 1)->0;
            lemma_file_edges_snd(ps[i], b, spec_header_refs(t));
            assert(spec_nodes(ps).contains(b));
            assert forall|m: int|
                0 <= m < spec_all_edges(ps, texts, i)->0.len() implies spec_nodes(ps).contains(
                (#[trigger] spec_all_edges(ps, texts, i)->0[m]).1,
            ) by {
                assert(spec_all_edges(ps, texts, i)->0 == es + rest);
                if m < es.len() {
                    assert(spec_all_edges(ps, texts, i)->0[m] == es[m]);
                } else {
                    assert(spec_all_edges(ps, texts, i)->0[m] == rest[m - es.len()]);
                }
            }
        }
    }
}

/// The stage that rebuilds the reversed dependency graph from the source
/// set. File contents are read outside and handed in as `texts`; a source
/// file without a recorded text counts as unreadable. The graph gets one
/// node per source file (by normal form) and one edge from each referenced
/// file to the file that names it; the previous graph is kept for `undo`.
pub struct GenDepGraph {
    texts: Vec<(Vec<u8>, Vec<u8>)>,
    old_graph: Option<Graph>,
}

impl GenDepGraph {
    /// The recorded file texts, as handed in.
    pub closed spec fn texts_spec(&self) -> Seq<(Seq<u8>, Seq<u8>)> {
        pdv(self.texts@)
    }

    pub fn new(texts: Vec<(Vec<u8>, Vec<u8>)>) -> (r: Box<GenDepGraph>)
        ensures
            r.wf(),
            r.is_reset(),
            r.texts_spec() == pdv(texts@),
    {
        let r = GenDepGraph { texts, old_graph: None };
        proof {
            assert forall|s: BuildState| #[trigger] r.restore(s) == s by {}
        }
        Box::new(r)
    }

    /// Strips a path from the source tree down to its normal, root-relative
    /// form; `None` when it lies outside the source root.
    pub fn root_path(&self, path: &Vec<u8>) -> (r: Option<Vec<u8>>)
        ensures
            match r {
                Some(v) => spec_normalize(path@) == Some(v@),
                None => spec_normalize(path@) is None,
            },
    {
        normalize_path(path)
    }

    /// The paths named by quoted directives in `code`.
    pub fn get_header_refs(&self, code: &Vec<u8>) -> (r: Vec<Vec<u8>>)
        ensures
            dv(r@) == spec_header_refs(code@),
    {
        let kw = directive_kw_vec();
        let quote: Vec<u8> = vec![QUOTE];
        proof {
            assert(quote@ =~= seq![QUOTE]);
        }
        let lines = split_bytes(code, NEWLINE);
        let ghost lns = dv(lines@);
        let mut out: Vec<Vec<u8>> = Vec::new();
        let mut i: usize = 0;
        proof {
            assert(lns.skip(0) =~= lns);
            assert(dv(out@) =~= Seq::<Seq<u8>>::empty());
            assert(dv(out@) + spec_refs_of_lines(lns.skip(0)) =~= spec_refs_of_lines(lns));
        }
        while i < lines.len()
            invariant
                i <= lines@.len(),
                lns == dv(lines@),
                lns == spec_split(code@, NEWLINE),
                kw@ == directive_kw(),
                quote@ == seq![QUOTE],
                dv(out@) + spec_refs_of_lines(lns.skip(i as int)) == spec_refs_of_lines(lns),
            decreases lines@.len() - i,
        {
            let ghost rem = lns.skip(i as int);
            proof {
                assert(rem[0] == lns[i as int]);
                assert(rem.skip(1) =~= lns.skip(i as int + 1));
            }
            let line = &lines[i];
            if contains_seq(line, &kw) && contains_byte(line, QUOTE) {
                let cleaned = trim(&remove_all(&remove_all(line, &kw), &quote));
                proof {
                    lemma_dv_push(out@, cleaned);
                    assert(dv(out@).push(cleaned@) + spec_refs_of_lines(lns.skip(i as int + 1))
                        =~= dv(out@) + spec_refs_of_lines(rem));
                }
                out.push(cleaned);
            }
            i = i + 1;
        }
        proof {
            assert(lns.skip(i as int) =~= Seq::<Seq<u8>>::empty());
            assert(dv(out@) + spec_refs_of_lines(lns.skip(i as int)) =~= dv(out@));
        }
        out
    }

    /// The text recorded for `p`, when one was handed in.
    fn find_text(&self, p: &Vec<u8>) -> (r: Option<&Vec<u8>>)
        ensures
            match r {
                Some(t) => spec_text_of(self.texts_spec(), p@) == Some(t@),
                None => spec_text_of(self.texts_spec(), p@) is None,
            },
    {
        let ghost ts = self.texts_spec();
        let mut i: usize = 0;
        proof {
            assert(ts.skip(0) =~= ts);
        }
        while i < self.texts.len()
            invariant
                i <= self.texts@.len(),
                ts == self.texts_spec(),
                spec_text_of(ts.skip(i as int), p@) == spec_text_of(ts, p@),
            decreases self.texts@.len() - i,
        {
            proof {
                assert(ts.skip(i as int)[0] == ts[i as int]);
                assert(ts.skip(i as int).skip(1) =~= ts.skip(i as int + 1));
            }
            if bytes_eq(&self.texts[i].0, p) {
                proof {
                    assert(ts[i as int].0 == p@);
                }
                return Some(&self.texts[i].1);
            }
            i = i + 1;
        }
        proof {
            assert(ts.skip(i as int) =~= Seq::<(Seq<u8>, Seq<u8>)>::empty());
        }
        None
    }

    /// Walks the source set and gathers every edge: for each file, each
    /// quoted reference resolved against the file's directory and
    /// normalized. Fails on a file without a text or a reference that
    /// escapes the source root.
    fn collect_edges(&self, srcs: &Vec<Vec<u8>>) -> (r: Result<Vec<(Vec<u8>, Vec<u8>)>, Error>)
        requires
            all_normalize(dv(srcs@)),
        ensures
            match r {
                Ok(v) => spec_all_edges(dv(srcs@), self.texts_spec(), 0) == Some(pdv(v@)),
                Err(e) => spec_all_edges(dv(srcs@), self.texts_spec(), 0) is None && e@
                    == spec_edges_err(dv(srcs@), self.texts_spec(), 0),
            },
    {
        let ghost ps = dv(srcs@);
        let ghost texts = self.texts_spec();
        let ghost target = spec_all_edges(ps, texts, 0);
        let mut out: Vec<(Vec<u8>, Vec<u8>)> = Vec::new();
        let mut i: usize = 0;
        proof {
            assert(pdv(out@) =~= Seq::<(Seq<u8>, Seq<u8>)>::empty());
        }
        while i < srcs.len()
            invariant
                i <= srcs@.len(),
                ps == dv(srcs@),
                texts == self.texts_spec(),
                all_normalize(ps),
                target == spec_all_edges(ps, texts, 0),
                match spec_all_edges(ps, texts, i as int) {
                    Some(rest) => target == Some(pdv(out@) + rest),
                    None => target is None && spec_edges_err(ps, texts, 0) == spec_edges_err(
                        ps,
                        texts,
                        i as int,
                    ),
                },
            decreases srcs@.len() - i,
        {
            let entry = &srcs[i];
            proof {
                assert(ps[i as int] == entry@);
            }
            let text = match self.find_text(entry) {
                None => {
                    proof {
                        reveal_strlit("Failed to read src file");
                        assert(spec_all_edges(ps, texts, i as int) is None);
                        assert(spec_edges_err(ps, texts, i as int) == read_err_msg());
                    }
                    return Err(Error::new(tok("Failed to read src file")));
                },
                Some(t) => t,
            };
            let refs = self.get_header_refs(text);
            let ghost refsdv = dv(refs@);
            let b = self.root_path(entry).unwrap();
            let ghost bdv = b@;
            let mut j: usize = 0;
            proof {
                assert(refsdv.skip(0) =~= refsdv);
                assert(spec_normalize(ps[i as int]) == Some(bdv));
                // the outer invariant's failure half, restated free of the
                // variables the inner loop mutates
                assert(spec_all_edges(ps, texts, i as int) is None ==> (target is None
                    && spec_edges_err(ps, texts, 0) == spec_edges_err(ps, texts, i as int)));
            }
            while j < refs.len()
                invariant
                    j <= refs@.len(),
                    i < srcs@.len(),
                    ps == dv(srcs@),
                    texts == self.texts_spec(),
                    all_normalize(ps),
                    target == spec_all_edges(ps, texts, 0),
                    refsdv == dv(refs@),
                    bdv == b@,
                    spec_normalize(ps[i as int]) == Some(bdv),
                    spec_text_of(texts, ps[i as int]) is Some,
                    refsdv == spec_header_refs(spec_text_of(texts, ps[i as int])->0),
                    spec_all_edges(ps, texts, i as int) is None ==> (target is None
                        && spec_edges_err(ps, texts, 0) == spec_edges_err(ps, texts, i as int)),
                    spec_file_edges(ps[i as int], bdv, refsdv) is Some <==> spec_file_edges(
                        ps[i as int],
                        bdv,
                        refsdv.skip(j as int),
                    ) is Some,
                    spec_file_edges(ps[i as int], bdv, refsdv) is None ==> spec_file_err(
                        ps[i as int],
                        refsdv,
                    ) == spec_file_err(ps[i as int], refsdv.skip(j as int)),
                    match spec_file_edges(ps[i as int], bdv, refsdv.skip(j as int)) {
                        Some(frest) => match spec_all_edges(ps, texts, i as int + 1) {
                            Some(rest) => target == Some(pdv(out@) + frest + rest),
                            None => target is None,
                        },
                        None => target is None,
                    },
                decreases refs@.len() - j,
            {
                let ghost rrem = refsdv.skip(j as int);
                proof {
                    assert(rrem[0] == refsdv[j as int]);
                    assert(rrem.skip(1) =~= refsdv.skip(j as int + 1));
                }
                let joined = parent_join(&srcs[i], &refs[j]);
                match normalize_path(&joined) {
                    None => {
                        proof {
                            reveal_strlit("Failed to validate header reference ");
                            reveal_strlit(" found in ");
                            assert(spec_file_edges(ps[i as int], bdv, rrem) is None);
                            assert(spec_file_edges(ps[i as int], bdv, refsdv) is None);
                            assert(spec_file_err(ps[i as int], rrem) == validate_err_msg(
                                spec_parent_join(ps[i as int], rrem[0]),
                                ps[i as int],
                            ));
                            assert(spec_all_edges(ps, texts, i as int) is None);
                            assert(spec_edges_err(ps, texts, i as int) == spec_file_err(
                                ps[i as int],
                                refsdv,
                            ));
                        }
                        let mut msg = tok("Failed to validate header reference ");
                        msg = concat_bytes(&msg, &joined);
                        let mid = tok(" found in ");
                        msg = concat_bytes(&msg, &mid);
                        msg = concat_bytes(&msg, &srcs[i]);
                        proof {
                            assert(msg@ =~= validate_err_msg(
                                spec_parent_join(ps[i as int], rrem[0]),
                                ps[i as int],
                            ));
                            assert(msg@ == spec_edges_err(ps, texts, 0));
                        }
                        return Err(Error::new(msg));
                    },
                    Some(a) => {
                        let ghost oldout = pdv(out@);
                        let bb = copy_bytes(&b);
                        proof {
                            assert(pdv(out@.push((a, bb))) =~= oldout.push((a@, bdv)));
                            assert((seq![(a@, bdv)] + spec_file_edges(
                                ps[i as int],
                                bdv,
                                rrem.skip(1),
                            )->0) =~= seq![(a@, bdv)] + spec_file_edges(
                                ps[i as int],
                                bdv,
                                refsdv.skip(j as int + 1),
                            )->0);
                        }
                        out.push((a, bb));
                        proof {
                            if spec_file_edges(ps[i as int], bdv, refsdv.skip(j as int + 1)) is Some
                                && spec_all_edges(ps, texts, i as int + 1) is Some {
                                assert(pdv(out@) + spec_file_edges(
                                    ps[i as int],
                                    bdv,
                                    refsdv.skip(j as int + 1),
                                )->0 + spec_all_edges(ps, texts, i as int + 1)->0 =~= oldout + (
                                seq![(a@, bdv)] + spec_file_edges(
                                    ps[i as int],
                                    bdv,
                                    refsdv.skip(j as int + 1),
                                )->0) + spec_all_edges(ps, texts, i as int + 1)->0);
                            }
                        }
                    },
                }
                j = j + 1;
            }
            proof {
                assert(refsdv.skip(j as int) =~= Seq::<Seq<u8>>::empty());
                assert(spec_file_edges(ps[i as int], bdv, refsdv.skip(j as int)) == Some(
                    Seq::<(Seq<u8>, Seq<u8>)>::empty(),
                ));
                if spec_all_edges(ps, texts, i as int + 1) is Some {
                    assert(pdv(out@) + Seq::<(Seq<u8>, Seq<u8>)>::empty() + spec_all_edges(
                        ps,
                        texts,
                        i as int + 1,
                    )->0 =~= pdv(out@) + spec_all_edges(ps, texts, i as int + 1)->0);
                }
                // this file contributed all its edges; a later failure, if
                // any, keeps the same first message
                assert(spec_file_edges(ps[i as int], bdv, refsdv) is Some);
                if spec_all_edges(ps, texts, i as int + 1) is None {
                    assert(spec_all_edges(ps, texts, i as int) is None);
                    assert(spec_edges_err(ps, texts, i as int) == spec_edges_err(
                        ps,
                        texts,
                        i as int + 1,
                    ));
                }
            }
            i = i + 1;
        }
        proof {
            assert(spec_all_edges(ps, texts, i as int) == Some(Seq::<(Seq<u8>, Seq<u8>)>::empty()));
            assert(pdv(out@) + Seq::<(Seq<u8>, Seq<u8>)>::empty() =~= pdv(out@));
        }
        Ok(out)
    }
}

impl Action for GenDepGraph {
    type State = BuildState;

    open spec fn inv(s: BuildState) -> bool {
        s.wf()
    }

    closed spec fn wf(&self) -> bool {
        match self.old_graph {
            None => true,
            Some(g) => g.wf(),
        }
    }

    closed spec fn restore(&self, s: BuildState) -> BuildState {
        match self.old_graph {
            None => s,
            Some(g) => BuildState {
                config: s.config,
                src_paths: s.src_paths,
                dep_graph: g,
                changed_files: s.changed_files,
            },
        }
    }

    /// Success means every source path stays inside the root, every source
    /// file has a text, and every reference resolves inside the root; the
    /// graph then holds exactly one node per source file's normal form and
    /// exactly the collected edges whose tail is a node.
    open spec fn ens(pre_self: GenDepGraph, pre: BuildState, post: BuildState) -> bool {
        &&& all_normalize(dv(pre.src_paths@))
        &&& spec_all_edges(dv(pre.src_paths@), pre_self.texts_spec(), 0) is Some
        &&& post.dep_graph.node_set() == spec_nodes(dv(pre.src_paths@))
        &&& (forall|a: Seq<u8>|
            #[trigger] post.dep_graph.succ_set(a) == Set::new(
                |b: Seq<u8>|
                    spec_all_edges(dv(pre.src_paths@), pre_self.texts_spec(), 0)->0.contains(
                        (a, b),
                    ) && spec_nodes(dv(pre.src_paths@)).contains(a),
            ))
        &&& post.config == pre.config
        &&& post.src_paths == pre.src_paths
        &&& post.changed_files == pre.changed_files
    }

    /// The step fails exactly when a source path escapes the root, a source
    /// file has no text, or a reference escapes the root; the error text is
    /// the first such failure's message, and the containers other than the
    /// graph are untouched (the graph is put back in full by `undo`).
    open spec fn err_ens(pre_self: GenDepGraph, pre: BuildState, post: BuildState, msg: Seq<u8>) -> bool {
        &&& !(all_normalize(dv(pre.src_paths@)) && spec_all_edges(
            dv(pre.src_paths@),
            pre_self.texts_spec(),
            0,
        ) is Some)
        &&& msg == spec_dep_err(dv(pre.src_paths@), pre_self.texts_spec())
        &&& post.src_paths == pre.src_paths
        &&& post.config == pre.config
        &&& post.changed_files == pre.changed_files
    }

    /// Restoring the snapshotted graph cannot fail.
    open spec fn undo_err_ens(pre_self: GenDepGraph, pre: BuildState) -> bool {
        false
    }

    proof fn restore_preserves_inv(&self, s: BuildState) {
    }

    fn execute(&mut self, state: &mut BuildState) -> (r: Result<(), Error>) {
        let ghost ps = dv(state.src_paths@);
        let mut g = Graph::new();
        core::mem::swap(&mut state.dep_graph, &mut g);
        self.old_graph = Some(g);
        proof {
            assert(self.restore(*state) == *old(state));
        }
        // one node per source file, by normal form
        let mut i: usize = 0;
        while i < state.src_paths.len()
            invariant
                i <= state.src_paths@.len(),
                ps == dv(state.src_paths@),
                state.src_paths == old(state).src_paths,
                state.config == old(state).config,
                state.changed_files == old(state).changed_files,
                old(state).wf(),
                self.old_graph == Some(old(state).dep_graph),
                self.restore(*state) == *old(state),
                self.wf(),
                self.texts_spec() == old(self).texts_spec(),
                state.dep_graph.wf(),
                forall|j: int| 0 <= j < i ==> (#[trigger] spec_normalize(ps[j])) is Some,
                state.dep_graph.node_set() == Set::new(
                    |n: Seq<u8>|
                        exists|j: int|
                            0 <= j < i && spec_normalize(#[trigger] ps[j]) == Some(n),
                ),
                forall|a: Seq<u8>|
                    #[trigger] state.dep_graph.succ_set(a) == Set::<Seq<u8>>::empty(),
            decreases state.src_paths@.len() - i,
        {
            let n = match normalize_path(&state.src_paths[i]) {
                None => {
                    proof {
                        reveal_strlit("Failed to simplify dependency path");
                        assert(spec_normalize(ps[i as int]) is None);
                        assert(!all_normalize(ps));
                        assert(spec_dep_err(ps, old(self).texts_spec()) == simplify_err_msg());
                    }
                    return Err(Error::new(tok("Failed to simplify dependency path")));
                },
                Some(n) => n,
            };
            let ghost oldset = state.dep_graph.node_set();
            state.dep_graph.create_node(n);
            proof {
                assert(state.dep_graph.node_set() =~= Set::new(
                    |nn: Seq<u8>|
                        exists|j: int|
                            0 <= j < i + 1 && spec_normalize(#[trigger] ps[j]) == Some(nn),
                ));
            }
            i = i + 1;
        }
        proof {
            assert(state.dep_graph.node_set() =~= spec_nodes(ps));
        }
        // gather and insert the edges
        let pairs = match self.collect_edges(&state.src_paths) {
            Err(e) => {
                proof {
                    assert(e@ == spec_dep_err(ps, old(self).texts_spec()));
                }
                return Err(e);
            },
            Ok(v) => v,
        };
        let ghost alledges = spec_all_edges(ps, self.texts_spec(), 0)->0;
        let ghost pairsdv = pdv(pairs@);
        proof {
            lemma_all_edges_snd(ps, self.texts_spec(), 0);
        }
        let mut k: usize = 0;
        while k < pairs.len()
            invariant
                k <= pairs@.len(),
                pairsdv == pdv(pairs@),
                pairsdv == alledges,
                alledges == spec_all_edges(ps, old(self).texts_spec(), 0)->0,
                self.texts_spec() == old(self).texts_spec(),
                forall|m: int|
                    0 <= m < pairsdv.len() ==> spec_nodes(ps).contains((#[trigger] pairsdv[m]).1),
                ps == dv(state.src_paths@),
                state.src_paths == old(state).src_paths,
                state.config == old(state).config,
                state.changed_files == old(state).changed_files,
                old(state).wf(),
                self.old_graph == Some(old(state).dep_graph),
                self.restore(*state) == *old(state),
                self.wf(),
                state.dep_graph.wf(),
                state.dep_graph.node_set() == spec_nodes(ps),
                forall|a: Seq<u8>|
                    #[trigger] state.dep_graph.succ_set(a) == Set::new(
                        |b: Seq<u8>|
                            (exists|m: int|
                                0 <= m < k && pairsdv[m] == (a, b)) && spec_nodes(ps).contains(a),
                    ),
            decreases pairs@.len() - k,
        {
            let pr = &pairs[k];
            proof {
                assert(pairsdv[k as int] == (pr.0@, pr.1@));
            }
            state.dep_graph.create_edge(&pr.0, &pr.1);
            proof {
                let a0 = pr.0@;
                let b0 = pr.1@;
                assert forall|a: Seq<u8>|
                    #[trigger] state.dep_graph.succ_set(a) == Set::new(
                        |b: Seq<u8>|
                            (exists|m: int|
                                0 <= m < k + 1 && pairsdv[m] == (a, b)) && spec_nodes(
                                ps,
                            ).contains(a),
                    ) by {
                    if spec_nodes(ps).contains(a0) && spec_nodes(ps).contains(b0) {
                        if a == a0 {
                            assert(state.dep_graph.succ_set(a) =~= Set::new(
                                |b: Seq<u8>|
                                    (exists|m: int|
                                        0 <= m < k + 1 && pairsdv[m] == (a, b)) && spec_nodes(
                                        ps,
                                    ).contains(a),
                            ));
                        } else {
                            assert(state.dep_graph.succ_set(a) =~= Set::new(
                                |b: Seq<u8>|
                                    (exists|m: int|
                                        0 <= m < k + 1 && pairsdv[m] == (a, b)) && spec_nodes(
                                        ps,
                                    ).contains(a),
                            ));
                        }
                    } else {
                        assert(state.dep_graph.succ_set(a) =~= Set::new(
                            |b: Seq<u8>|
                                (exists|m: int|
                                    0 <= m < k + 1 && pairsdv[m] == (a, b)) && spec_nodes(
                                    ps,
                                ).contains(a),
                        ));
                    }
                }
            }
            k = k + 1;
        }
        proof {
            assert(pairsdv.skip(k as int) =~= Seq::<(Seq<u8>, Seq<u8>)>::empty());
            assert forall|a: Seq<u8>|
                #[trigger] state.dep_graph.succ_set(a) == Set::new(
                    |b: Seq<u8>| alledges.contains((a, b)) && spec_nodes(ps).contains(a),
                ) by {
                assert(state.dep_graph.succ_set(a) =~= Set::new(
                    |b: Seq<u8>| alledges.contains((a, b)) && spec_nodes(ps).contains(a),
                ));
            }
        }
        Ok(())
    }

    fn undo(&mut self, state: &mut BuildState) -> (r: Result<(), Error>) {
        let mut saved: Option<Graph> = None;
        core::mem::swap(&mut self.old_graph, &mut saved);
        match saved {
            None => {},
            Some(g) => {
                state.dep_graph = g;
            },
        }
        proof {
            assert forall|s: BuildState| #[trigger] self.restore(s) == s by {}
        }
        Ok(())
    }
}

} // verus!
