use turtle_build::ast::{Build, Module, Rule, Statement};
use turtle_build::compile::compile;
use turtle_build::error::ApplicationError;
use turtle_build::module_dependency::validate;

fn s(x: &str) -> String {
    x.to_string()
}

fn simple_build(outputs: &[&str], rule: &str, inputs: &[&str]) -> Statement {
    Statement::Build(Build {
        outputs: outputs.iter().map(|x| s(x)).collect(),
        rule: s(rule),
        inputs: inputs.iter().map(|x| s(x)).collect(),
        implicit_inputs: vec![],
        order_only_inputs: vec![],
    })
}

fn two_edge_modules() -> (Vec<(String, Module)>, Vec<(String, Vec<(String, String)>)>) {
    let module = Module {
        statements: vec![
            Statement::Rule(Rule { name: s("cc"), command: s("cc -c $in -o $out") }),
            Statement::Rule(Rule { name: s("link"), command: s("link $in -o $out") }),
            simple_build(&["a.o"], "cc", &["a.c"]),
            simple_build(&["app"], "link", &["a.o"]),
        ],
    };
    (
        vec![(s("build.ninja"), module)],
        vec![(s("build.ninja"), vec![])],
    )
}

#[test]
fn validate_accepts_acyclic_modules() {
    let deps = vec![
        (s("root.ninja"), vec![(s("sub.ninja"), s("sub.ninja"))]),
        (s("sub.ninja"), vec![]),
    ];
    assert!(validate(&deps).is_ok());
}

#[test]
fn validate_rejects_cycle() {
    let deps = vec![
        (s("a.ninja"), vec![(s("b.ninja"), s("b.ninja"))]),
        (s("b.ninja"), vec![(s("a.ninja"), s("a.ninja"))]),
    ];
    assert_eq!(validate(&deps), Err(ApplicationError::CircularModuleDependency));
}

#[test]
fn validate_rejects_self_reference() {
    let deps = vec![(s("a.ninja"), vec![(s("a.ninja"), s("a.ninja"))])];
    assert_eq!(validate(&deps), Err(ApplicationError::CircularModuleDependency));
}

#[test]
fn compile_two_edges() {
    let (modules, deps) = two_edge_modules();
    let c = compile(&modules, &deps, &s("build.ninja")).unwrap();
    assert_eq!(c.edges.len(), 2);
    assert_eq!(c.edges[0].outputs, vec![s("a.o")]);
    assert_eq!(c.edges[0].command, Some(s("cc -c a.c -o a.o")));
    assert_eq!(c.edges[1].outputs, vec![s("app")]);
    assert_eq!(c.edges[1].command, Some(s("link a.o -o app")));
    // app is consumed by nothing, so it is the fallback default target
    assert_eq!(c.default_outputs, vec![s("app")]);
}

#[test]
fn compile_duplicate_output_is_structural_error() {
    let module = Module {
        statements: vec![
            Statement::Rule(Rule { name: s("cc"), command: s("cc $in $out") }),
            simple_build(&["out.txt"], "cc", &["a.c"]),
            simple_build(&["out.txt"], "cc", &["b.c"]),
        ],
    };
    let modules = vec![(s("build.ninja"), module)];
    let deps = vec![(s("build.ninja"), vec![])];
    let r = compile(&modules, &deps, &s("build.ninja"));
    assert_eq!(r.err(), Some(ApplicationError::DuplicateOutput(s("out.txt"))));
}

#[test]
fn compile_missing_rule_is_error() {
    let module = Module { statements: vec![simple_build(&["x"], "nosuch", &["y"])] };
    let modules = vec![(s("build.ninja"), module)];
    let deps = vec![(s("build.ninja"), vec![])];
    let r = compile(&modules, &deps, &s("build.ninja"));
    assert_eq!(r.err(), Some(ApplicationError::RuleNotFound(s("nosuch"))));
}

#[test]
fn compile_missing_module_is_error() {
    let modules = vec![];
    let deps = vec![];
    let r = compile(&modules, &deps, &s("build.ninja"));
    assert_eq!(r.err(), Some(ApplicationError::ModuleNotFound(s("build.ninja"))));
}

#[test]
fn compile_variable_scoping() {
    // The submodule sees the parent's binding; the parent does not see
    // the child's redefinition.  The included file shares the namespace.
    let root = Module {
        statements: vec![
            Statement::VariableDefinition(s("flags"), s("-O2")),
            Statement::Submodule(s("sub.ninja")),
            Statement::Include(s("inc.ninja")),
            Statement::Build(Build {
                outputs: vec![s("root.out")],
                rule: s("cc"),
                inputs: vec![s("root.c")],
                implicit_inputs: vec![],
                order_only_inputs: vec![],
            }),
        ],
    };
    let sub = Module {
        statements: vec![
            Statement::Rule(Rule { name: s("cc"), command: s("cc $flags $in -o $out") }),
            Statement::VariableDefinition(s("flags"), s("-O0")),
            simple_build(&["sub.out"], "cc", &["sub.c"]),
        ],
    };
    let inc = Module {
        statements: vec![
            Statement::Rule(Rule { name: s("cc"), command: s("cc $flags $in -o $out") }),
            simple_build(&["inc.out"], "cc", &["inc.c"]),
        ],
    };
    let modules = vec![(s("root"), root), (s("sub.ninja"), sub), (s("inc.ninja"), inc)];
    let deps = vec![
        (s("root"), vec![(s("sub.ninja"), s("sub.ninja")), (s("inc.ninja"), s("inc.ninja"))]),
        (s("sub.ninja"), vec![]),
        (s("inc.ninja"), vec![]),
    ];
    let c = compile(&modules, &deps, &s("root")).unwrap();
    // child saw the parent's -O2, then shadowed it with -O0 locally
    assert_eq!(c.edges[0].command, Some(s("cc -O0 sub.c -o sub.out")));
    // the include shares the root namespace, where flags is still -O2
    assert_eq!(c.edges[1].command, Some(s("cc -O2 inc.c -o inc.out")));
    // the rule defined by the include is visible to the root afterwards
    assert_eq!(c.edges[2].command, Some(s("cc -O2 root.c -o root.out")));
}

#[test]
fn compile_build_directory_binding() {
    let module = Module {
        statements: vec![Statement::VariableDefinition(s("builddir"), s("out/dir"))],
    };
    let modules = vec![(s("build.ninja"), module)];
    let deps = vec![(s("build.ninja"), vec![])];
    let c = compile(&modules, &deps, &s("build.ninja")).unwrap();
    assert_eq!(c.build_directory, Some(s("out/dir")));
}

#[test]
fn compile_declared_defaults_win() {
    let module = Module {
        statements: vec![
            Statement::Rule(Rule { name: s("cc"), command: s("cc") }),
            simple_build(&["a"], "cc", &[]),
            simple_build(&["b"], "cc", &[]),
            Statement::Default(vec![s("b")]),
        ],
    };
    let modules = vec![(s("build.ninja"), module)];
    let deps = vec![(s("build.ninja"), vec![])];
    let c = compile(&modules, &deps, &s("build.ninja")).unwrap();
    assert_eq!(c.default_outputs, vec![s("b")]);
}

#[test]
fn compile_build_without_outputs_is_error() {
    let module = Module {
        statements: vec![
            Statement::Rule(Rule { name: s("cc"), command: s("cc") }),
            simple_build(&[], "cc", &["a.c"]),
        ],
    };
    let modules = vec![(s("build.ninja"), module)];
    let deps = vec![(s("build.ninja"), vec![])];
    let r = compile(&modules, &deps, &s("build.ninja"));
    assert_eq!(r.err(), Some(ApplicationError::MissingOutputs));
}
