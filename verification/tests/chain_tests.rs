use cproj::action::Action;
use cproj::{
    ActionChain, BuildProject, BuildState, BuildStep, Config, Error, HasFile, Lang, ReadConfig,
};

fn v(s: &str) -> Vec<u8> {
    s.as_bytes().to_vec()
}

fn cfg(name: &str, lang: Lang) -> Config {
    Config::new(&v(name), lang)
}

#[test]
fn chain_undo_without_execute_is_a_no_op() {
    let mut chain: Box<ActionChain<BuildStep>> = ActionChain::new();
    chain.add(BuildStep::ReadConfig(*ReadConfig::new(Ok(cfg("p", Lang::C)))));
    let mut state = BuildState::new();
    assert!(chain.undo(&mut state).is_ok());
    assert_eq!(state.config.name, v(""));
}

#[test]
fn chain_execute_then_undo_restores_state() {
    let plan = BuildProject::new(&vec![]);
    let mut chain = plan.make_chain(
        Ok(cfg("proj", Lang::C)),
        Ok(vec![v("src/a.c"), v("src/a.h"), v("src/notes.txt")]),
        vec![(v("src/a.c"), v("#include \"a.h\"\nint main(){}\n")), (v("src/a.h"), v(""))],
        None,
        vec![],
    );
    let mut state = BuildState::new();
    assert!(chain.execute(&mut state).is_ok());
    // the run filled every shared container
    assert_eq!(state.config.name, v("proj"));
    assert_eq!(state.src_paths, vec![v("src/a.c"), v("src/a.h")]);
    assert!(state.dep_graph._has_node(&v("src/a.c")));
    assert_eq!(state.changed_files.len(), 2);
    // undoing restores every shared container
    assert!(chain.undo(&mut state).is_ok());
    assert_eq!(state.config.name, v(""));
    assert_eq!(state.src_paths.len(), 0);
    assert!(!state.dep_graph._has_node(&v("src/a.c")));
    assert_eq!(state.changed_files.len(), 0);
}

#[test]
fn chain_failure_rolls_back_the_executed_prefix() {
    let mut chain: Box<ActionChain<BuildStep>> = ActionChain::new();
    chain.add(BuildStep::ReadConfig(*ReadConfig::new(Ok(cfg("first", Lang::C)))));
    chain.add(BuildStep::HasFile(*HasFile::new(v("cproj.json"), false)));
    chain.add(BuildStep::ReadConfig(*ReadConfig::new(Ok(cfg("second", Lang::Cpp)))));
    let mut state = BuildState::new();
    let r = chain.execute(&mut state);
    assert!(r.is_err());
    let msg = r.err().unwrap();
    assert_eq!(msg.get_msg(), &v("cproj.json doesnt exist"));
    // the first step ran, the step after the failing guard did not
    assert_eq!(state.config.name, v("first"));
    // undo reverses exactly the steps that ran
    assert!(chain.undo(&mut state).is_ok());
    assert_eq!(state.config.name, v(""));
    // a second undo finds nothing left to reverse
    assert!(chain.undo(&mut state).is_ok());
    assert_eq!(state.config.name, v(""));
}

#[test]
fn chain_reports_the_failing_step_error_unchanged() {
    let mut chain: Box<ActionChain<BuildStep>> = ActionChain::new();
    chain.add(BuildStep::ReadConfig(*ReadConfig::new(Err(Error::new(v("Failed to read config"))))));
    let mut state = BuildState::new();
    let r = chain.execute(&mut state);
    assert_eq!(r.err().unwrap().get_msg(), &v("Failed to read config"));
}

#[test]
fn chains_nest_as_reversible_steps() {
    // a chain is itself an action, so chains compose
    let mut inner: Box<ActionChain<BuildStep>> = ActionChain::new();
    inner.add(BuildStep::ReadConfig(*ReadConfig::new(Ok(cfg("nested", Lang::Cpp)))));
    let mut outer: Box<ActionChain<ActionChain<BuildStep>>> = ActionChain::new();
    outer.add(*inner);
    let mut state = BuildState::new();
    assert!(outer.execute(&mut state).is_ok());
    assert_eq!(state.config.name, v("nested"));
    assert!(outer.undo(&mut state).is_ok());
    assert_eq!(state.config.name, v(""));
}

#[test]
fn error_prepend_keeps_the_original_text() {
    let e = Error::new(v("Failed to read config"));
    let e = e.prepend(&v("Failed to build project: "));
    assert_eq!(e.get_msg(), &v("Failed to build project: Failed to read config"));
}
