use cproj::action::Action;
use cproj::{BuildProject, BuildState, Config, GenDepGraph, Lang};

fn v(s: &str) -> Vec<u8> {
    s.as_bytes().to_vec()
}

fn cfg(name: &str, lang: Lang) -> Config {
    Config::new(&v(name), lang)
}

fn changed_set(state: &BuildState) -> Vec<Vec<u8>> {
    let mut out = state.changed_files.clone();
    out.sort();
    out
}

#[test]
fn missing_marker_forces_a_full_rebuild() {
    let plan = BuildProject::new(&vec![]);
    let mut chain = plan.make_chain(
        Ok(cfg("p", Lang::C)),
        Ok(vec![v("src/a.c"), v("src/a.h"), v("src/deep.h")]),
        vec![
            (v("src/a.c"), v("#include \"a.h\"\n")),
            (v("src/a.h"), v("#include \"deep.h\"\n")),
            (v("src/deep.h"), v("")),
        ],
        None,
        vec![],
    );
    let mut state = BuildState::new();
    assert!(chain.execute(&mut state).is_ok());
    assert_eq!(changed_set(&state), vec![v("src/a.c"), v("src/a.h"), v("src/deep.h")]);
}

#[test]
fn staleness_propagates_from_header_to_module() {
    let plan = BuildProject::new(&vec![]);
    let mut chain = plan.make_chain(
        Ok(cfg("p", Lang::C)),
        Ok(vec![v("src/h.h"), v("src/m.c"), v("src/other.c")]),
        vec![
            (v("src/h.h"), v("")),
            (v("src/m.c"), v("#include \"h.h\"\n")),
            (v("src/other.c"), v("")),
        ],
        Some(100),
        vec![
            (v("src/h.h"), Some(150)),
            (v("src/m.c"), Some(50)),
            (v("src/other.c"), Some(50)),
        ],
    );
    let mut state = BuildState::new();
    assert!(chain.execute(&mut state).is_ok());
    assert_eq!(changed_set(&state), vec![v("src/h.h"), v("src/m.c")]);
}

#[test]
fn staleness_terminates_and_marks_both_on_a_cycle() {
    let plan = BuildProject::new(&vec![]);
    let mut chain = plan.make_chain(
        Ok(cfg("p", Lang::C)),
        Ok(vec![v("src/a.h"), v("src/b.h")]),
        vec![
            (v("src/a.h"), v("#include \"b.h\"\n")),
            (v("src/b.h"), v("#include \"a.h\"\n")),
        ],
        Some(100),
        vec![(v("src/a.h"), Some(150)), (v("src/b.h"), Some(50))],
    );
    let mut state = BuildState::new();
    assert!(chain.execute(&mut state).is_ok());
    assert_eq!(changed_set(&state), vec![v("src/a.h"), v("src/b.h")]);
}

#[test]
fn unreadable_mtime_counts_as_edited() {
    let plan = BuildProject::new(&vec![]);
    let mut chain = plan.make_chain(
        Ok(cfg("p", Lang::C)),
        Ok(vec![v("src/a.c"), v("src/b.c")]),
        vec![(v("src/a.c"), v("")), (v("src/b.c"), v(""))],
        Some(100),
        vec![(v("src/a.c"), None), (v("src/b.c"), Some(50))],
    );
    let mut state = BuildState::new();
    assert!(chain.execute(&mut state).is_ok());
    assert_eq!(changed_set(&state), vec![v("src/a.c")]);
}

#[test]
fn quoted_directives_only_produce_edges() {
    let scanner = GenDepGraph::new(vec![]);
    let refs = scanner.get_header_refs(&v("#include <stdio.h>\n#include \"util.h\"\nint x;\n"));
    assert_eq!(refs, vec![v("util.h")]);
}

#[test]
fn directive_paths_are_trimmed_and_resolved() {
    let scanner = GenDepGraph::new(vec![]);
    let refs = scanner.get_header_refs(&v("  #include   \"sub/x.h\"  \r\nno directive here\n"));
    assert_eq!(refs, vec![v("sub/x.h")]);
}

#[test]
fn graph_holds_reversed_dependency_edges() {
    let plan = BuildProject::new(&vec![]);
    let mut chain = plan.make_chain(
        Ok(cfg("p", Lang::C)),
        Ok(vec![v("src/a.c"), v("src/sub/a.h")]),
        vec![
            (v("src/a.c"), v("#include \"sub/a.h\"\n")),
            (v("src/sub/a.h"), v("")),
        ],
        None,
        vec![],
    );
    let mut state = BuildState::new();
    assert!(chain.execute(&mut state).is_ok());
    // the edge runs from the referenced header to the file naming it
    let succ = state.dep_graph.get_connected(&v("src/sub/a.h")).unwrap();
    assert_eq!(succ.len(), 1);
    assert_eq!(succ[0], v("src/a.c"));
    assert_eq!(state.dep_graph.get_connected(&v("src/a.c")).unwrap().len(), 0);
}

#[test]
fn relative_indirections_are_resolved() {
    let plan = BuildProject::new(&vec![]);
    let mut chain = plan.make_chain(
        Ok(cfg("p", Lang::C)),
        Ok(vec![v("src/sub/b.c"), v("src/a.h")]),
        vec![
            (v("src/sub/b.c"), v("#include \"../a.h\"\n")),
            (v("src/a.h"), v("")),
        ],
        None,
        vec![],
    );
    let mut state = BuildState::new();
    assert!(chain.execute(&mut state).is_ok());
    let succ = state.dep_graph.get_connected(&v("src/a.h")).unwrap();
    assert_eq!(succ.len(), 1);
    assert_eq!(succ[0], v("src/sub/b.c"));
}

#[test]
fn escaping_reference_fails_and_leaves_no_partial_graph() {
    let plan = BuildProject::new(&vec![]);
    // first build a good graph
    let mut chain = plan.make_chain(
        Ok(cfg("p", Lang::C)),
        Ok(vec![v("src/a.c"), v("src/a.h")]),
        vec![(v("src/a.c"), v("#include \"a.h\"\n")), (v("src/a.h"), v(""))],
        None,
        vec![],
    );
    let mut state = BuildState::new();
    assert!(chain.execute(&mut state).is_ok());
    assert!(state.dep_graph._has_node(&v("src/a.h")));
    // now a graph rebuild that hits a reference escaping the source root
    let mut bad = plan.make_chain(
        Ok(cfg("p", Lang::C)),
        Ok(vec![v("src/a.c")]),
        vec![(v("src/a.c"), v("#include \"../evil.h\"\n"))],
        None,
        vec![],
    );
    let r = bad.execute(&mut state);
    assert!(r.is_err());
    let msg = String::from_utf8(r.err().unwrap().get_msg().clone()).unwrap();
    assert_eq!(msg, "Failed to validate header reference src/../evil.h found in src/a.c");
    // rolling back restores the previous graph in full
    assert!(bad.undo(&mut state).is_ok());
    assert!(state.dep_graph._has_node(&v("src/a.h")));
    let succ = state.dep_graph.get_connected(&v("src/a.h")).unwrap();
    assert_eq!(succ.len(), 1);
    assert_eq!(succ[0], v("src/a.c"));
}

#[test]
fn unreadable_source_file_is_fatal() {
    let plan = BuildProject::new(&vec![]);
    let mut chain = plan.make_chain(
        Ok(cfg("p", Lang::C)),
        Ok(vec![v("src/a.c")]),
        vec![],
        None,
        vec![],
    );
    let mut state = BuildState::new();
    let r = chain.execute(&mut state);
    assert_eq!(r.err().unwrap().get_msg(), &v("Failed to read src file"));
}

#[test]
fn end_to_end_marker_lifecycle() {
    let plan = BuildProject::new(&vec![]);
    let listing = vec![v("src/a.h"), v("src/a.c")];
    let texts = vec![(v("src/a.h"), v("")), (v("src/a.c"), v("#include \"a.h\"\n"))];

    // no marker: everything is rebuilt
    let mut chain = plan.make_chain(Ok(cfg("p", Lang::C)), Ok(listing.clone()), texts.clone(), None, vec![]);
    let mut state = BuildState::new();
    assert!(chain.execute(&mut state).is_ok());
    assert_eq!(changed_set(&state), vec![v("src/a.c"), v("src/a.h")]);

    // marker written after a successful build, nothing edited since
    let mut chain2 = plan.make_chain(
        Ok(cfg("p", Lang::C)),
        Ok(listing.clone()),
        texts.clone(),
        Some(1000),
        vec![(v("src/a.h"), Some(900)), (v("src/a.c"), Some(900))],
    );
    assert!(chain2.execute(&mut state).is_ok());
    assert_eq!(changed_set(&state), Vec::<Vec<u8>>::new());

    // touching only the header rebuilds the header and its dependent
    let mut chain3 = plan.make_chain(
        Ok(cfg("p", Lang::C)),
        Ok(listing.clone()),
        texts.clone(),
        Some(1000),
        vec![(v("src/a.h"), Some(1100)), (v("src/a.c"), Some(900))],
    );
    assert!(chain3.execute(&mut state).is_ok());
    assert_eq!(changed_set(&state), vec![v("src/a.c"), v("src/a.h")]);
}
