use turtle_build::ast::{Build, Module, Rule, Statement};
use turtle_build::compile::compile;
use turtle_build::database::Database;
use turtle_build::error::ApplicationError;
use turtle_build::run::{Action, BuildState, FileState, Options};

fn s(x: &str) -> String {
    x.to_string()
}

fn opts() -> Options {
    Options { debug: false, profile: false }
}

fn simple_build(outputs: &[&str], rule: &str, inputs: &[&str]) -> Statement {
    Statement::Build(Build {
        outputs: outputs.iter().map(|x| s(x)).collect(),
        rule: s(rule),
        inputs: inputs.iter().map(|x| s(x)).collect(),
        implicit_inputs: vec![],
        order_only_inputs: vec![],
    })
}

fn two_edge_configuration() -> turtle_build::configuration::Configuration {
    let module = Module {
        statements: vec![
            Statement::Rule(Rule { name: s("cc"), command: s("cc -c $in -o $out") }),
            Statement::Rule(Rule { name: s("link"), command: s("link $in -o $out") }),
            simple_build(&["a.o"], "cc", &["a.c"]),
            simple_build(&["app"], "link", &["a.o"]),
        ],
    };
    let modules = vec![(s("build.ninja"), module)];
    let deps = vec![(s("build.ninja"), vec![])];
    compile(&modules, &deps, &s("build.ninja")).unwrap()
}

/// Drive a build to its end, answering every dispatch with success and a
/// fresh signature.  Returns (dispatched commands in order, result).
fn drive(state: &mut BuildState) -> (Vec<String>, Result<(), ApplicationError>) {
    drive_from(state, 1000)
}

/// Like `drive`, with a chosen range of output signatures, so a test can
/// make a rebuilt output either identical to or different from before.
fn drive_from(
    state: &mut BuildState,
    start_sig: u64,
) -> (Vec<String>, Result<(), ApplicationError>) {
    let mut dispatched = Vec::new();
    let mut next_sig: u64 = start_sig;
    loop {
        match state.next_action() {
            Action::Dispatch(edge, cmd) => {
                dispatched.push(cmd);
                let n = state.configuration.edges[edge].outputs.len();
                next_sig += 1;
                let sigs = vec![Some(next_sig); n];
                state.complete(edge, true, &sigs);
            }
            Action::Skipped(_) => {}
            Action::Wait => panic!("nothing in flight, nothing to wait for"),
            Action::Finished(r) => return (dispatched, r),
        }
    }
}

#[test]
fn first_build_dispatches_in_order_then_rebuild_dispatches_nothing() {
    let c = two_edge_configuration();
    let mut files = FileState::new();
    files.insert(s("a.c"), 7);
    let mut state = BuildState::new(
        c.clone(),
        &vec![s("app")],
        opts(),
        4,
        Database::new(),
        files,
    )
    .unwrap();
    let (dispatched, r) = drive(&mut state);
    assert!(r.is_ok());
    assert_eq!(
        dispatched,
        vec![s("cc -c a.c -o a.o"), s("link a.o -o app")]
    );

    // second run with the database and file signatures from the first
    let mut state2 = BuildState::new(
        c,
        &vec![s("app")],
        opts(),
        4,
        state.database.clone(),
        state.files.clone(),
    )
    .unwrap();
    let (dispatched2, r2) = drive(&mut state2);
    assert!(r2.is_ok());
    assert_eq!(dispatched2, Vec::<String>::new());
    // and the database is unchanged by the second run
    assert_eq!(state2.database.records.len(), state.database.records.len());
}

#[test]
fn changed_input_redispatches_downstream_when_output_changes() {
    let c = two_edge_configuration();
    let mut files = FileState::new();
    files.insert(s("a.c"), 7);
    let mut state = BuildState::new(
        c.clone(),
        &vec![s("app")],
        opts(),
        2,
        Database::new(),
        files,
    )
    .unwrap();
    let (_, r) = drive(&mut state);
    assert!(r.is_ok());

    // a.c changes, and the rebuilt a.o has new content: the link edge
    // becomes stale in turn
    let mut files2 = state.files.clone();
    files2.insert(s("a.c"), 8);
    let mut state2 = BuildState::new(
        c,
        &vec![s("app")],
        opts(),
        2,
        state.database.clone(),
        files2,
    )
    .unwrap();
    let (dispatched2, r2) = drive_from(&mut state2, 5000);
    assert!(r2.is_ok());
    assert_eq!(dispatched2.len(), 2);
}

#[test]
fn identical_rebuilt_output_cuts_propagation() {
    let c = two_edge_configuration();
    let mut files = FileState::new();
    files.insert(s("a.c"), 7);
    let mut state = BuildState::new(
        c.clone(),
        &vec![s("app")],
        opts(),
        2,
        Database::new(),
        files,
    )
    .unwrap();
    let (_, r) = drive(&mut state);
    assert!(r.is_ok());

    // a.c changes but recompiling yields a byte-identical a.o: only the
    // compile edge runs; none of its inputs changed for the link edge
    let mut files2 = state.files.clone();
    files2.insert(s("a.c"), 8);
    let mut state2 = BuildState::new(
        c,
        &vec![s("app")],
        opts(),
        2,
        state.database.clone(),
        files2,
    )
    .unwrap();
    let (dispatched2, r2) = drive_from(&mut state2, 1000);
    assert!(r2.is_ok());
    assert_eq!(dispatched2, vec![s("cc -c a.c -o a.o")]);
}

#[test]
fn unknown_target_is_error() {
    let c = two_edge_configuration();
    let r = BuildState::new(c, &vec![s("nope")], opts(), 1, Database::new(), FileState::new());
    assert_eq!(r.err(), Some(ApplicationError::UnknownTarget(s("nope"))));
}

#[test]
fn requesting_existing_source_file_is_satisfied_without_work() {
    let c = two_edge_configuration();
    let mut files = FileState::new();
    files.insert(s("a.c"), 7);
    let mut state =
        BuildState::new(c, &vec![s("a.c")], opts(), 1, Database::new(), files).unwrap();
    let (dispatched, r) = drive(&mut state);
    assert!(r.is_ok());
    assert!(dispatched.is_empty());
}

#[test]
fn concurrency_stays_under_job_limit() {
    // three independent edges, job limit two
    let module = Module {
        statements: vec![
            Statement::Rule(Rule { name: s("cc"), command: s("cc $in -o $out") }),
            simple_build(&["x1"], "cc", &["s1"]),
            simple_build(&["x2"], "cc", &["s2"]),
            simple_build(&["x3"], "cc", &["s3"]),
        ],
    };
    let modules = vec![(s("build.ninja"), module)];
    let deps = vec![(s("build.ninja"), vec![])];
    let c = compile(&modules, &deps, &s("build.ninja")).unwrap();
    let mut files = FileState::new();
    files.insert(s("s1"), 1);
    files.insert(s("s2"), 2);
    files.insert(s("s3"), 3);
    let mut state = BuildState::new(
        c,
        &vec![s("x1"), s("x2"), s("x3")],
        opts(),
        2,
        Database::new(),
        files,
    )
    .unwrap();
    let mut in_flight = Vec::new();
    let a1 = state.next_action();
    let a2 = state.next_action();
    match (a1, a2) {
        (Action::Dispatch(e1, _), Action::Dispatch(e2, _)) => {
            in_flight.push(e1);
            in_flight.push(e2);
        }
        _ => panic!("expected two dispatches"),
    }
    assert_eq!(state.running, 2);
    // at the limit: the third ready edge must wait
    assert!(matches!(state.next_action(), Action::Wait));
    state.complete(in_flight[0], true, &vec![Some(11)]);
    assert_eq!(state.running, 1);
    match state.next_action() {
        Action::Dispatch(e3, _) => in_flight.push(e3),
        other => panic!("expected third dispatch, got {:?}", action_name(&other)),
    }
    assert_eq!(state.running, 2);
    state.complete(in_flight[1], true, &vec![Some(12)]);
    state.complete(in_flight[2], true, &vec![Some(13)]);
    assert!(matches!(state.next_action(), Action::Finished(Ok(()))));
}

fn action_name(a: &Action) -> &'static str {
    match a {
        Action::Dispatch(_, _) => "dispatch",
        Action::Skipped(_) => "skipped",
        Action::Wait => "wait",
        Action::Finished(_) => "finished",
    }
}

#[test]
fn first_failure_lets_running_work_finish_and_record() {
    // two independent edges; A fails while B is already running
    let module = Module {
        statements: vec![
            Statement::Rule(Rule { name: s("cc"), command: s("cc $in -o $out") }),
            simple_build(&["outa"], "cc", &["srca"]),
            simple_build(&["outb"], "cc", &["srcb"]),
        ],
    };
    let modules = vec![(s("build.ninja"), module)];
    let deps = vec![(s("build.ninja"), vec![])];
    let c = compile(&modules, &deps, &s("build.ninja")).unwrap();
    let mut files = FileState::new();
    files.insert(s("srca"), 1);
    files.insert(s("srcb"), 2);
    let mut state = BuildState::new(
        c,
        &vec![s("outa"), s("outb")],
        opts(),
        2,
        Database::new(),
        files,
    )
    .unwrap();
    let (ea, eb) = match (state.next_action(), state.next_action()) {
        (Action::Dispatch(a, _), Action::Dispatch(b, _)) => (a, b),
        _ => panic!("expected two dispatches"),
    };
    // A fails first
    state.complete(ea, false, &vec![Some(5)]);
    // nothing new is dispatched, but B may finish
    assert!(matches!(state.next_action(), Action::Wait));
    state.complete(eb, true, &vec![Some(6)]);
    // B's success was recorded even though the run failed
    assert!(state.database.lookup(&s("outb")).is_some());
    assert!(state.database.lookup(&s("outa")).is_none());
    assert!(matches!(
        state.next_action(),
        Action::Finished(Err(ApplicationError::Build))
    ));
}

#[test]
fn missing_declared_output_is_a_failure() {
    let c = two_edge_configuration();
    let mut files = FileState::new();
    files.insert(s("a.c"), 7);
    let mut state =
        BuildState::new(c, &vec![s("a.o")], opts(), 1, Database::new(), files).unwrap();
    let edge = match state.next_action() {
        Action::Dispatch(e, _) => e,
        _ => panic!("expected a dispatch"),
    };
    // the command exited 0 but never produced a.o
    state.complete(edge, true, &vec![None]);
    assert!(matches!(
        state.next_action(),
        Action::Finished(Err(ApplicationError::Build))
    ));
    assert!(state.database.lookup(&s("a.o")).is_none());
}

#[test]
fn phony_edge_orders_without_command() {
    let module = Module {
        statements: vec![
            Statement::Rule(Rule { name: s("cc"), command: s("cc $in -o $out") }),
            simple_build(&["a.o"], "cc", &["a.c"]),
            simple_build(&["all"], "phony", &["a.o"]),
        ],
    };
    let modules = vec![(s("build.ninja"), module)];
    let deps = vec![(s("build.ninja"), vec![])];
    let c = compile(&modules, &deps, &s("build.ninja")).unwrap();
    let mut files = FileState::new();
    files.insert(s("a.c"), 7);
    let mut state =
        BuildState::new(c, &vec![s("all")], opts(), 1, Database::new(), files).unwrap();
    let (dispatched, r) = drive(&mut state);
    assert!(r.is_ok());
    assert_eq!(dispatched, vec![s("cc a.c -o a.o")]);
}

#[test]
fn build_graph_cycle_is_detected() {
    let module = Module {
        statements: vec![
            Statement::Rule(Rule { name: s("cc"), command: s("cc $in -o $out") }),
            simple_build(&["x"], "cc", &["y"]),
            simple_build(&["y"], "cc", &["x"]),
        ],
    };
    let modules = vec![(s("build.ninja"), module)];
    let deps = vec![(s("build.ninja"), vec![])];
    let c = compile(&modules, &deps, &s("build.ninja")).unwrap();
    let mut state = BuildState::new(
        c,
        &vec![s("x")],
        opts(),
        1,
        Database::new(),
        FileState::new(),
    )
    .unwrap();
    assert!(matches!(
        state.next_action(),
        Action::Finished(Err(ApplicationError::CircularBuildDependency))
    ));
}
