use cproj::compile_files::CompileFiles;
use cproj::{Config, Lang};

fn v(s: &str) -> Vec<u8> {
    s.as_bytes().to_vec()
}

fn vs(xs: &[&str]) -> Vec<Vec<u8>> {
    xs.iter().map(|s| v(s)).collect()
}

#[test]
fn code_files_keep_sources_and_drop_headers() {
    let c = CompileFiles::new(false);
    let files = vs(&["src/a.c", "src/a.h", "src/b.cpp", "src/t.tcc", "src/gen.i", "src/x.hpp"]);
    assert_eq!(c.get_code_files(&files), vs(&["src/a.c", "src/b.cpp", "src/gen.i"]));
}

#[test]
fn object_paths_flatten_the_source_tree() {
    let debug = CompileFiles::new(false);
    let release = CompileFiles::new(true);
    assert_eq!(debug.convert_to_obj_path(&v("src/a.c")), v("bin/debug/obj/a.o"));
    assert_eq!(debug.convert_to_obj_path(&v("src/sub/a.c")), v("bin/debug/obj/sub_a.o"));
    assert_eq!(release.convert_to_obj_path(&v("src/sub/deep/x.cpp")), v("bin/release/obj/sub_deep_x.o"));
}

#[test]
fn log_paths_sit_beside_the_objects() {
    let debug = CompileFiles::new(false);
    assert_eq!(debug.convert_to_log_path(&v("src/sub/a.c")), v("bin/debug/log/sub_a.log"));
    let release = CompileFiles::new(true);
    assert_eq!(release.convert_to_log_path(&v("src/a.c")), v("bin/release/log/a.log"));
}

#[test]
fn timestamp_path_follows_the_mode() {
    assert_eq!(CompileFiles::new(false).timestamp_path(), v("bin/debug/timestamp"));
    assert_eq!(CompileFiles::new(true).timestamp_path(), v("bin/release/timestamp"));
}

#[test]
fn compile_command_lists_every_argument_in_order() {
    let c = Config::new(&v("p"), Lang::C);
    let debug = CompileFiles::new(false);
    let cmd = debug.compile_command(&c, &v("src/a.c"));
    assert_eq!(
        cmd,
        vs(&["gcc", "-c", "src/a.c", "-o", "bin/debug/obj/a.o", "-I", "include", "-Wall", "-Wextra"])
    );
    let release = CompileFiles::new(true);
    let cmd2 = release.compile_command(&c, &v("src/a.c"));
    assert_eq!(
        cmd2,
        vs(&["gcc", "-c", "src/a.c", "-o", "bin/release/obj/a.o", "-I", "include", "-Wall", "-Wextra", "-O2"])
    );
}

#[test]
fn link_command_collects_objects_flags_and_output() {
    let c = Config::new(&v("p"), Lang::Cpp);
    let debug = CompileFiles::new(false);
    let cmd = debug.link_command(&c, &vs(&["src/a.cpp", "src/a.h", "src/b.cpp"]));
    assert_eq!(
        cmd,
        vs(&[
            "g++",
            "bin/debug/obj/a.o",
            "bin/debug/obj/b.o",
            "-Wall",
            "-Wextra",
            "-L",
            "lib",
            "-o",
            "bin/debug/p",
        ])
    );
}

#[test]
fn object_path_of_an_extensionless_file_gains_one() {
    let debug = CompileFiles::new(false);
    assert_eq!(debug.convert_to_obj_path(&v("src/noext.c")), v("bin/debug/obj/noext.o"));
    assert_eq!(debug.convert_to_obj_path(&v("src/archive.tar.c")), v("bin/debug/obj/archive.tar.o"));
}

#[test]
fn compile_results_gate_the_link_stage() {
    let c = CompileFiles::new(false);
    assert!(c.check_compile_results(&vec![]).is_ok());
    assert!(c.check_compile_results(&vec![true, true]).is_ok());
    let r = c.check_compile_results(&vec![true, false, true]);
    assert_eq!(r.err().unwrap().get_msg(), &v("failed to compile"));
}
