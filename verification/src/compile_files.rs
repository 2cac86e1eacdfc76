use vstd::prelude::*;
use crate::action::Error;
use crate::bytes::{ascii_bytes, concat_bytes, copy_bytes, dv, lemma_dv_push, tok};
use crate::config::Config;
use crate::bytes::spec_starts_with;
use crate::paths::{
    ext_of, flatten_path, set_ext, spec_ext_of, spec_flatten, spec_set_ext, sub_bytes, SLASH,
};

verus! {

broadcast use vstd::std_specs::vec::axiom_spec_len;

/// Whether a path names compilable code rather than a header: its extension
/// holds a `c` or an `i` and no `t`.
pub open spec fn spec_is_code(p: Seq<u8>) -> bool {
    match spec_ext_of(p) {
        Some(e) => (e.contains(99u8) || e.contains(105u8)) && !e.contains(116u8),
        None => false,
    }
}

/// The compilable files of a list, in order.
pub open spec fn spec_code_files(l: Seq<Seq<u8>>) -> Seq<Seq<u8>>
    decreases l.len(),
{
    if l.len() == 0 {
        Seq::<Seq<u8>>::empty()
    } else {
        let rest = spec_code_files(l.skip(1));
        if spec_is_code(l[0]) {
            seq![l[0]] + rest
        } else {
            rest
        }
    }
}

/// The artifact directory of the build mode.
pub open spec fn spec_mode_dir(release: bool) -> Seq<u8> {
    if release {
        ascii_bytes("release"@)
    } else {
        ascii_bytes("debug"@)
    }
}

/// The object path of a source file: the root-relative path flattened into
/// one component under the mode's object directory, with extension `o`.
pub open spec fn spec_obj_path(p: Seq<u8>, release: bool) -> Seq<u8> {
    spec_set_ext(
        ascii_bytes("bin/"@) + spec_mode_dir(release) + ascii_bytes("/obj/"@) + spec_flatten(
            p.skip(4),
        ),
        ascii_bytes("o"@),
    )
}

/// The log path of a source file, beside the objects, with extension `log`.
pub open spec fn spec_log_path(p: Seq<u8>, release: bool) -> Seq<u8> {
    spec_set_ext(
        ascii_bytes("bin/"@) + spec_mode_dir(release) + ascii_bytes("/log/"@) + spec_flatten(
            p.skip(4),
        ),
        ascii_bytes("log"@),
    )
}

/// Flag-value pairs: `flag` before each element of `xs`.
pub open spec fn spec_flag_pairs(flag: Seq<u8>, xs: Seq<Seq<u8>>) -> Seq<Seq<u8>>
    decreases xs.len(),
{
    if xs.len() == 0 {
        Seq::<Seq<u8>>::empty()
    } else {
        seq![flag, xs[0]] + spec_flag_pairs(flag, xs.skip(1))
    }
}

/// The active optimization flags of a configuration.
pub open spec fn spec_mode_flags(c: Config, release: bool) -> Seq<Seq<u8>> {
    if release {
        dv(c.release_flags@)
    } else {
        dv(c.debug_flags@)
    }
}

/// The full compiler argument list for one file: the compiler itself,
/// `-c` with the file, `-o` with its object, the header search directories
/// and the mode's flags.
pub open spec fn spec_compile_command(c: Config, p: Seq<u8>, release: bool) -> Seq<Seq<u8>> {
    seq![c.cc@, ascii_bytes("-c"@), p, ascii_bytes("-o"@), spec_obj_path(p, release)]
        + spec_flag_pairs(ascii_bytes("-I"@), dv(c.inc_dirs@)) + spec_mode_flags(c, release)
}

/// The objects of the compilable files of the source set.
pub open spec fn spec_obj_list(files: Seq<Seq<u8>>, release: bool) -> Seq<Seq<u8>>
    decreases files.len(),
{
    if files.len() == 0 {
        Seq::<Seq<u8>>::empty()
    } else {
        let rest = spec_obj_list(files.skip(1), release);
        if spec_is_code(files[0]) {
            seq![spec_obj_path(files[0], release)] + rest
        } else {
            rest
        }
    }
}

/// The path of the final binary, named after the project.
pub open spec fn spec_binary_path(c: Config, release: bool) -> Seq<u8> {
    ascii_bytes("bin/"@) + spec_mode_dir(release) + seq![SLASH] + c.name@
}

/// The full linker argument list: the compiler, the link flags, every
/// object of the source set, the mode's flags, the library search
/// directories, and the output binary.
pub open spec fn spec_link_command(c: Config, files: Seq<Seq<u8>>, release: bool) -> Seq<
    Seq<u8>,
> {
    seq![c.cc@] + dv(c.link_flags@) + spec_obj_list(files, release) + spec_mode_flags(c, release)
        + spec_flag_pairs(ascii_bytes("-L"@), dv(c.lib@)) + seq![
        ascii_bytes("-o"@),
        spec_binary_path(c, release),
    ]
}

/// The compile-and-link stage, reduced to its decisions: which files to
/// compile, where their artifacts go, the exact toolchain argument lists,
/// and whether linking may proceed. Running the toolchain itself is outside
/// work driven by these answers.
pub struct CompileFiles {
    release_mode: bool,
}

impl CompileFiles {
    pub closed spec fn release_spec(&self) -> bool {
        self.release_mode
    }

    pub fn new(release_mode: bool) -> (r: Box<CompileFiles>)
        ensures
            r.release_spec() == release_mode,
    {
        Box::new(CompileFiles { release_mode })
    }

    /// The compilable files of the rebuild set (headers are analyzed but
    /// never compiled on their own).
    pub fn get_code_files(&self, files: &Vec<Vec<u8>>) -> (r: Vec<Vec<u8>>)
        ensures
            dv(r@) == spec_code_files(dv(files@)),
    {
        let ghost fs = dv(files@);
        let mut out: Vec<Vec<u8>> = Vec::new();
        let mut i: usize = 0;
        proof {
            assert(fs.skip(0) =~= fs);
            assert(dv(out@) + spec_code_files(fs.skip(0)) =~= spec_code_files(fs));
        }
        while i < files.len()
            invariant
                i <= files@.len(),
                fs == dv(files@),
                dv(out@) + spec_code_files(fs.skip(i as int)) == spec_code_files(fs),
            decreases files@.len() - i,
        {
            let ghost rem = fs.skip(i as int);
            proof {
                assert(rem[0] == fs[i as int]);
                assert(rem.skip(1) =~= fs.skip(i as int + 1));
            }
            let p = &files[i];
            let keep = match ext_of(p) {
                Some(e) => (crate::bytes::contains_byte(&e, 99) || crate::bytes::contains_byte(
                    &e,
                    105,
                )) && !crate::bytes::contains_byte(&e, 116),
                None => false,
            };
            if keep {
                let e = copy_bytes(p);
                proof {
                    lemma_dv_push(out@, e);
                    assert(dv(out@).push(e@) + spec_code_files(fs.skip(i as int + 1)) =~= dv(out@)
                        + spec_code_files(rem));
                }
                out.push(e);
            }
            i = i + 1;
        }
        proof {
            assert(fs.skip(i as int) =~= Seq::<Seq<u8>>::empty());
            assert(dv(out@) + Seq::<Seq<u8>>::empty() =~= dv(out@));
        }
        out
    }

    /// The artifact prefix `bin/<mode>/<kind>/` followed by the flattened
    /// root-relative path, with the extension replaced.
    fn artifact_path(&self, path: &Vec<u8>, kind: &Vec<u8>, ext: &Vec<u8>) -> (r: Vec<u8>)
        requires
            spec_starts_with(path@, ascii_bytes("src/"@)),
        ensures
            r@ == spec_set_ext(
                ascii_bytes("bin/"@) + spec_mode_dir(self.release_spec()) + seq![SLASH] + kind@
                    + seq![SLASH] + spec_flatten(path@.skip(4)),
                ext@,
            ),
    {
        proof {
            reveal_strlit("bin/");
            reveal_strlit("release");
            reveal_strlit("debug");
            reveal_strlit("src/");
        }
        let mode = if self.release_mode {
            tok("release")
        } else {
            tok("debug")
        };
        let rel = sub_bytes(path, 4, path.len());
        proof {
            assert(ascii_bytes("src/"@).len() == 4);
            assert(path@.subrange(4, path@.len() as int) =~= path@.skip(4));
        }
        let flat = flatten_path(&rel);
        let mut full = tok("bin/");
        full = concat_bytes(&full, &mode);
        full.push(SLASH);
        full = concat_bytes(&full, kind);
        full.push(SLASH);
        full = concat_bytes(&full, &flat);
        proof {
            assert(full@ =~= ascii_bytes("bin/"@) + spec_mode_dir(self.release_spec())
                + seq![SLASH] + kind@ + seq![SLASH] + spec_flatten(path@.skip(4)));
        }
        set_ext(&full, ext)
    }

    /// The object file a source file compiles to.
    pub fn convert_to_obj_path(&self, path: &Vec<u8>) -> (r: Vec<u8>)
        requires
            spec_starts_with(path@, ascii_bytes("src/"@)),
        ensures
            r@ == spec_obj_path(path@, self.release_spec()),
    {
        proof {
            reveal_strlit("obj");
            reveal_strlit("o");
        }
        let r = self.artifact_path(path, &tok("obj"), &tok("o"));
        proof {
            reveal_strlit("/obj/");
            assert(ascii_bytes("bin/"@) + spec_mode_dir(self.release_spec()) + seq![SLASH]
                + ascii_bytes("obj"@) + seq![SLASH] + spec_flatten(path@.skip(4)) =~= ascii_bytes(
                "bin/"@,
            ) + spec_mode_dir(self.release_spec()) + ascii_bytes("/obj/"@) + spec_flatten(
                path@.skip(4),
            ));
        }
        r
    }

    /// The log file a source file's compiler output goes to.
    pub fn convert_to_log_path(&self, path: &Vec<u8>) -> (r: Vec<u8>)
        requires
            spec_starts_with(path@, ascii_bytes("src/"@)),
        ensures
            r@ == spec_log_path(path@, self.release_spec()),
    {
        proof {
            reveal_strlit("log");
        }
        let r = self.artifact_path(path, &tok("log"), &tok("log"));
        proof {
            reveal_strlit("/log/");
            assert(ascii_bytes("bin/"@) + spec_mode_dir(self.release_spec()) + seq![SLASH]
                + ascii_bytes("log"@) + seq![SLASH] + spec_flatten(path@.skip(4)) =~= ascii_bytes(
                "bin/"@,
            ) + spec_mode_dir(self.release_spec()) + ascii_bytes("/log/"@) + spec_flatten(
                path@.skip(4),
            ));
        }
        r
    }

    /// The marker file whose modification time records the last successful
    /// build of this mode.
    pub fn timestamp_path(&self) -> (r: Vec<u8>)
        ensures
            r@ == ascii_bytes("bin/"@) + spec_mode_dir(self.release_spec()) + ascii_bytes(
                "/timestamp"@,
            ),
    {
        proof {
            reveal_strlit("bin/");
            reveal_strlit("release");
            reveal_strlit("debug");
            reveal_strlit("/timestamp");
        }
        let mode = if self.release_mode {
            tok("release")
        } else {
            tok("debug")
        };
        let mut r = tok("bin/");
        r = concat_bytes(&r, &mode);
        let tail = tok("/timestamp");
        r = concat_bytes(&r, &tail);
        r
    }

    /// The path of the final binary.
    pub fn binary_path(&self, config: &Config) -> (r: Vec<u8>)
        ensures
            r@ == spec_binary_path(*config, self.release_spec()),
    {
        proof {
            reveal_strlit("bin/");
            reveal_strlit("release");
            reveal_strlit("debug");
        }
        let mode = if self.release_mode {
            tok("release")
        } else {
            tok("debug")
        };
        let mut r = tok("bin/");
        r = concat_bytes(&r, &mode);
        r.push(SLASH);
        r = concat_bytes(&r, &config.name);
        proof {
            assert(r@ =~= spec_binary_path(*config, self.release_spec()));
        }
        r
    }

    /// The compiler argument list for one source file.
    pub fn compile_command(&self, config: &Config, path: &Vec<u8>) -> (r: Vec<Vec<u8>>)
        requires
            spec_starts_with(path@, ascii_bytes("src/"@)),
        ensures
            dv(r@) == spec_compile_command(*config, path@, self.release_spec()),
    {
        proof {
            reveal_strlit("-c");
            reveal_strlit("-o");
            reveal_strlit("-I");
        }
        let mut r: Vec<Vec<u8>> = Vec::new();
        r.push(copy_bytes(&config.cc));
        r.push(tok("-c"));
        r.push(copy_bytes(path));
        r.push(tok("-o"));
        r.push(self.convert_to_obj_path(path));
        let ghost head = dv(r@);
        proof {
            assert(head =~= seq![
                config.cc@,
                ascii_bytes("-c"@),
                path@,
                ascii_bytes("-o"@),
                spec_obj_path(path@, self.release_spec()),
            ]);
        }
        let flag_i = tok("-I");
        let mut i: usize = 0;
        while i < config.inc_dirs.len()
            invariant
                i <= config.inc_dirs@.len(),
                flag_i@ == ascii_bytes("-I"@),
                head == dv(r@).take(5),
                head.len() == 5,
                dv(r@) == head + spec_flag_pairs(
                    ascii_bytes("-I"@),
                    dv(config.inc_dirs@).take(i as int),
                ),
            decreases config.inc_dirs@.len() - i,
        {
            let ghost before = dv(r@);
            r.push(copy_bytes(&flag_i));
            r.push(copy_bytes(&config.inc_dirs[i]));
            proof {
                lemma_flag_pairs_snoc(
                    ascii_bytes("-I"@),
                    dv(config.inc_dirs@).take(i as int),
                    dv(config.inc_dirs@)[i as int],
                );
                assert(dv(config.inc_dirs@).take(i as int).push(dv(config.inc_dirs@)[i as int])
                    =~= dv(config.inc_dirs@).take(i as int + 1));
                assert(dv(r@) =~= before + seq![
                    ascii_bytes("-I"@),
                    dv(config.inc_dirs@)[i as int],
                ]);
                assert(dv(r@).take(5) =~= before.take(5));
            }
            i = i + 1;
        }
        proof {
            assert(dv(config.inc_dirs@).take(i as int) =~= dv(config.inc_dirs@));
        }
        let flags = if self.release_mode {
            &config.release_flags
        } else {
            &config.debug_flags
        };
        let ghost before_flags = dv(r@);
        let mut k: usize = 0;
        while k < flags.len()
            invariant
                k <= flags@.len(),
                dv(r@) == before_flags + dv(flags@).take(k as int),
            decreases flags@.len() - k,
        {
            let ghost before = dv(r@);
            r.push(copy_bytes(&flags[k]));
            proof {
                assert(dv(r@) =~= before.push(dv(flags@)[k as int]));
                assert(before_flags + dv(flags@).take(k as int + 1) =~= (before_flags + dv(
                    flags@,
                ).take(k as int)).push(dv(flags@)[k as int]));
            }
            k = k + 1;
        }
        proof {
            assert(dv(flags@).take(k as int) =~= dv(flags@));
            assert(dv(r@) =~= spec_compile_command(*config, path@, self.release_spec()));
        }
        r
    }

    /// The linker argument list over the whole source set.
    pub fn link_command(&self, config: &Config, src_files: &Vec<Vec<u8>>) -> (r: Vec<Vec<u8>>)
        requires
            forall|j: int|
                0 <= j < dv(src_files@).len() && spec_is_code(#[trigger] dv(src_files@)[j])
                    ==> spec_starts_with(dv(src_files@)[j], ascii_bytes("src/"@)),
        ensures
            dv(r@) == spec_link_command(*config, dv(src_files@), self.release_spec()),
    {
        proof {
            reveal_strlit("-L");
            reveal_strlit("-o");
        }
        let mut r: Vec<Vec<u8>> = Vec::new();
        r.push(copy_bytes(&config.cc));
        let ghost head = seq![config.cc@];
        proof {
            assert(dv(r@) =~= head);
        }
        // link flags
        let mut k: usize = 0;
        while k < config.link_flags.len()
            invariant
                k <= config.link_flags@.len(),
                dv(r@) == head + dv(config.link_flags@).take(k as int),
            decreases config.link_flags@.len() - k,
        {
            let ghost before = dv(r@);
            r.push(copy_bytes(&config.link_flags[k]));
            proof {
                assert(dv(r@) =~= before.push(dv(config.link_flags@)[k as int]));
                assert(head + dv(config.link_flags@).take(k as int + 1) =~= (head + dv(
                    config.link_flags@,
                ).take(k as int)).push(dv(config.link_flags@)[k as int]));
            }
            k = k + 1;
        }
        proof {
            assert(dv(config.link_flags@).take(k as int) =~= dv(config.link_flags@));
        }
        // objects of every compilable source file
        let ghost fs = dv(src_files@);
        let ghost head2 = head + dv(config.link_flags@);
        let mut i: usize = 0;
        proof {
            assert(fs.skip(0) =~= fs);
            assert(dv(r@) + spec_obj_list(fs.skip(0), self.release_spec()) =~= head2
                + spec_obj_list(fs, self.release_spec()));
        }
        while i < src_files.len()
            invariant
                i <= src_files@.len(),
                fs == dv(src_files@),
                forall|j: int|
                    0 <= j < fs.len() && spec_is_code(#[trigger] fs[j]) ==> spec_starts_with(
                        fs[j],
                        ascii_bytes("src/"@),
                    ),
                dv(r@) + spec_obj_list(fs.skip(i as int), self.release_spec()) == head2
                    + spec_obj_list(fs, self.release_spec()),
            decreases src_files@.len() - i,
        {
            let ghost rem = fs.skip(i as int);
            proof {
                assert(rem[0] == fs[i as int]);
                assert(rem.skip(1) =~= fs.skip(i as int + 1));
            }
            let p = &src_files[i];
            let keep = match ext_of(p) {
                Some(e) => (crate::bytes::contains_byte(&e, 99) || crate::bytes::contains_byte(
                    &e,
                    105,
                )) && !crate::bytes::contains_byte(&e, 116),
                None => false,
            };
            if keep {
                let ghost before = dv(r@);
                let obj = self.convert_to_obj_path(p);
                proof {
                    lemma_dv_push(r@, obj);
                    assert(before.push(obj@) + spec_obj_list(
                        fs.skip(i as int + 1),
                        self.release_spec(),
                    ) =~= before + spec_obj_list(rem, self.release_spec()));
                }
                r.push(obj);
            }
            i = i + 1;
        }
        proof {
            assert(fs.skip(i as int) =~= Seq::<Seq<u8>>::empty());
            assert(spec_obj_list(fs.skip(i as int), self.release_spec()) =~= Seq::<
                Seq<u8>,
            >::empty());
            assert(dv(r@) + Seq::<Seq<u8>>::empty() =~= dv(r@));
        }
        // mode flags
        let flags = if self.release_mode {
            &config.release_flags
        } else {
            &config.debug_flags
        };
        let ghost head3 = dv(r@);
        let mut k2: usize = 0;
        while k2 < flags.len()
            invariant
                k2 <= flags@.len(),
                dv(r@) == head3 + dv(flags@).take(k2 as int),
            decreases flags@.len() - k2,
        {
            let ghost before = dv(r@);
            r.push(copy_bytes(&flags[k2]));
            proof {
                assert(dv(r@) =~= before.push(dv(flags@)[k2 as int]));
                assert(head3 + dv(flags@).take(k2 as int + 1) =~= (head3 + dv(flags@).take(
                    k2 as int,
                )).push(dv(flags@)[k2 as int]));
            }
            k2 = k2 + 1;
        }
        proof {
            assert(dv(flags@).take(k2 as int) =~= dv(flags@));
        }
        // library search directories
        let flag_l = tok("-L");
        let ghost head4 = dv(r@);
        let mut m: usize = 0;
        while m < config.lib.len()
            invariant
                m <= config.lib@.len(),
                flag_l@ == ascii_bytes("-L"@),
                dv(r@) == head4 + spec_flag_pairs(
                    ascii_bytes("-L"@),
                    dv(config.lib@).take(m as int),
                ),
            decreases config.lib@.len() - m,
        {
            let ghost before = dv(r@);
            r.push(copy_bytes(&flag_l));
            r.push(copy_bytes(&config.lib[m]));
            proof {
                lemma_flag_pairs_snoc(
                    ascii_bytes("-L"@),
                    dv(config.lib@).take(m as int),
                    dv(config.lib@)[m as int],
                );
                assert(dv(config.lib@).take(m as int).push(dv(config.lib@)[m as int]) =~= dv(
                    config.lib@,
                ).take(m as int + 1));
                assert(dv(r@) =~= before + seq![ascii_bytes("-L"@), dv(config.lib@)[m as int]]);
            }
            m = m + 1;
        }
        proof {
            assert(dv(config.lib@).take(m as int) =~= dv(config.lib@));
        }
        // the output binary
        r.push(tok("-o"));
        r.push(self.binary_path(config));
        proof {
            assert(dv(r@) =~= spec_link_command(*config, fs, self.release_spec()));
        }
        r
    }

    /// Whether every compile succeeded, so that linking may proceed; the
    /// error carries the aggregated verdict.
    pub fn check_compile_results(&self, results: &Vec<bool>) -> (r: Result<(), Error>)
        ensures
            r is Ok <==> (forall|j: int| 0 <= j < results@.len() ==> results@[j]),
    {
        let mut i: usize = 0;
        while i < results.len()
            invariant
                i <= results@.len(),
                forall|j: int| 0 <= j < i ==> results@[j],
            decreases results.len() - i,
        {
            if !results[i] {
                proof {
                    reveal_strlit("failed to compile");
                }
                return Err(Error::new(tok("failed to compile")));
            }
            i = i + 1;
        }
        Ok(())
    }
}

/// Appending one more pair extends the pair list by two entries.
proof fn lemma_flag_pairs_snoc(flag: Seq<u8>, xs: Seq<Seq<u8>>, x: Seq<u8>)
    ensures
        spec_flag_pairs(flag, xs.push(x)) == spec_flag_pairs(flag, xs) + seq![flag, x],
    decreases xs.len(),
{
    if xs.len() == 0 {
        assert(xs.push(x)[0] == x);
        assert(xs.push(x).skip(1) =~= Seq::<Seq<u8>>::empty());
        assert(spec_flag_pairs(flag, Seq::<Seq<u8>>::empty()) == Seq::<Seq<u8>>::empty());
        assert(spec_flag_pairs(flag, xs.push(x)) == seq![flag, x] + spec_flag_pairs(
            flag,
            xs.push(x).skip(1),
        ));
        assert(seq![flag, x] + Seq::<Seq<u8>>::empty() =~= seq![flag, x]);
        assert(spec_flag_pairs(flag, xs) + seq![flag, x] =~= seq![flag, x]);
    } else {
        lemma_flag_pairs_snoc(flag, xs.skip(1), x);
        assert(xs.push(x)[0] == xs[0]);
        assert(xs.push(x).skip(1) =~= xs.skip(1).push(x));
        assert(spec_flag_pairs(flag, xs.push(x)) == seq![flag, xs[0]] + spec_flag_pairs(
            flag,
            xs.skip(1).push(x),
        ));
        assert(seq![flag, xs[0]] + (spec_flag_pairs(flag, xs.skip(1)) + seq![flag, x]) =~= (
        seq![flag, xs[0]] + spec_flag_pairs(flag, xs.skip(1))) + seq![flag, x]);
    }
}

} // verus!
