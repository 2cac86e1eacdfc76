use cproj::commands::{project_lang, project_name, validate_command, Command};
use cproj::compile_files::CompileFiles;
use cproj::gen_src_paths::GenSrcPaths;
use cproj::paths::normalize_path;
use cproj::action::Action;
use cproj::{ArgRetriever, ArgRule, BuildProject, BuildState, Config, Lang};

fn v(s: &str) -> Vec<u8> {
    s.as_bytes().to_vec()
}

fn vs(xs: &[&str]) -> Vec<Vec<u8>> {
    xs.iter().map(|s| v(s)).collect()
}

fn name_lang_retriever(args: &[&str]) -> ArgRetriever {
    let rules = vec![ArgRule::new(v("--name"), 1), ArgRule::new(v("--lang"), 1)];
    let mut r = ArgRetriever::new(&rules);
    r.load(&vs(args));
    r
}

#[test]
fn tagged_values_are_recorded() {
    let r = name_lang_retriever(&["--name", "proj", "--lang", "cpp"]);
    assert!(r.has_tag(&v("--name")));
    assert_eq!(r.get_tag_args(&v("--name")).unwrap(), vec![v("proj")]);
    assert_eq!(r.get_tag_args(&v("--lang")).unwrap(), vec![v("cpp")]);
    assert_eq!(r.get_untagged().len(), 0);
}

#[test]
fn a_tag_without_its_value_counts_as_absent() {
    let r = name_lang_retriever(&["--name"]);
    assert!(!r.has_tag(&v("--name")));
    assert!(r.get_tag_args(&v("--name")).is_none());
}

#[test]
fn unknown_arguments_stay_untagged() {
    let r = name_lang_retriever(&["proj", "extra"]);
    assert_eq!(r.get_untagged(), vec![v("proj"), v("extra")]);
    assert!(!r.has_tag(&v("--name")));
}

#[test]
fn loading_again_discards_the_earlier_argument_set() {
    let rules = vec![ArgRule::new(v("--name"), 1)];
    let mut r = ArgRetriever::new(&rules);
    r.load(&vs(&["--name", "one"]));
    r.load(&vs(&["other"]));
    assert!(!r.has_tag(&v("--name")));
    assert_eq!(r.get_untagged(), vec![v("other")]);
}

#[test]
fn rule_arg_count_is_kept() {
    let rule = ArgRule::new(v("--lang"), 1);
    assert_eq!(rule.get_arg_count(), 1);
}

#[test]
fn project_name_prefers_the_tag_over_untagged() {
    let r = name_lang_retriever(&["plain", "--name", "tagged"]);
    assert_eq!(project_name(&r).unwrap(), v("tagged"));
    let r2 = name_lang_retriever(&["plain"]);
    assert_eq!(project_name(&r2).unwrap(), v("plain"));
    let r3 = name_lang_retriever(&[]);
    assert!(project_name(&r3).is_none());
}

#[test]
fn project_lang_accepts_known_names_in_any_case() {
    assert_eq!(project_lang(&name_lang_retriever(&[])), Some(Lang::C));
    assert_eq!(project_lang(&name_lang_retriever(&["--lang", "c"])), Some(Lang::C));
    assert_eq!(project_lang(&name_lang_retriever(&["--lang", "CPP"])), Some(Lang::Cpp));
    assert_eq!(project_lang(&name_lang_retriever(&["--lang", "c++"])), Some(Lang::Cpp));
    assert_eq!(project_lang(&name_lang_retriever(&["--lang", "rust"])), None);
}

#[test]
fn commands_are_recognized_without_regard_to_case() {
    assert_eq!(validate_command(&v("BUILD")), Some(Command::Build));
    assert_eq!(validate_command(&v("new")), Some(Command::New));
    assert_eq!(validate_command(&v("Init")), Some(Command::Init));
    assert_eq!(validate_command(&v("run")), Some(Command::Run));
    assert_eq!(validate_command(&v("clean")), Some(Command::Clean));
    assert_eq!(validate_command(&v("help")), Some(Command::Help));
    assert_eq!(validate_command(&v("bogus")), None);
}

#[test]
fn release_flag_selects_release_mode() {
    let plain = BuildProject::new(&vs(&[]));
    let release = BuildProject::new(&vs(&["--release"]));
    let c = Config::new(&v("p"), Lang::C);
    assert_eq!(CompileFiles::new(false).binary_path(&c), v("bin/debug/p"));
    assert_eq!(CompileFiles::new(true).binary_path(&c), v("bin/release/p"));
    // the planners carry the decided mode into the artifact paths
    let _ = (plain, release);
}

#[test]
fn config_defaults_follow_the_language() {
    let c = Config::new(&v("demo"), Lang::C);
    assert_eq!(c.name, v("demo"));
    assert_eq!(c.cc, v("gcc"));
    assert_eq!(c.inc_dirs, vec![v("include")]);
    assert_eq!(c.lib, vec![v("lib")]);
    assert_eq!(c.link_flags.len(), 0);
    assert_eq!(c.debug_flags, vec![v("-Wall"), v("-Wextra")]);
    assert_eq!(c.release_flags, vec![v("-Wall"), v("-Wextra"), v("-O2")]);
    let cpp = Config::new(&v("demo"), Lang::Cpp);
    assert_eq!(cpp.cc, v("g++"));
}

#[test]
fn source_extensions_depend_on_the_language() {
    let c_exts = GenSrcPaths::get_extensions(Lang::C);
    assert_eq!(c_exts, vec![v("c"), v("i"), v("h")]);
    let cpp_exts = GenSrcPaths::get_extensions(Lang::Cpp);
    assert_eq!(cpp_exts.len(), 19);
    assert!(cpp_exts.contains(&v("hpp")));
    assert!(cpp_exts.contains(&v("tcc")));
}

#[test]
fn normalize_strips_indirections_inside_the_root() {
    assert_eq!(normalize_path(&v("src/a.c")).unwrap(), v("src/a.c"));
    assert_eq!(normalize_path(&v("src/./a.c")).unwrap(), v("src/a.c"));
    assert_eq!(normalize_path(&v("src/sub/../a.c")).unwrap(), v("src/a.c"));
    assert_eq!(normalize_path(&v("src//sub//b.h")).unwrap(), v("src/sub/b.h"));
}

#[test]
fn source_listing_is_deduplicated() {
    let mut step = GenSrcPaths::new(Ok(vec![v("src/a.c"), v("src/a.c"), v("src/b.h")]));
    let mut state = BuildState::new();
    assert!(step.execute(&mut state).is_ok());
    assert_eq!(state.src_paths, vec![v("src/a.c"), v("src/b.h")]);
}

#[test]
fn normalize_accepts_the_root_itself() {
    assert_eq!(normalize_path(&v("src")).unwrap(), v("src"));
    assert_eq!(normalize_path(&v("src/sub/../../src/a.c")).unwrap(), v("src/a.c"));
}

#[test]
fn normalize_rejects_paths_escaping_the_root() {
    assert!(normalize_path(&v("src/../evil.h")).is_none());
    assert!(normalize_path(&v("lib/x.h")).is_none());
    assert!(normalize_path(&v("/usr/x.h")).is_none());
    assert!(normalize_path(&v("../x.h")).is_none());
}
