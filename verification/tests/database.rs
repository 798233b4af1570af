use turtle_build::ast::{Build, Module, Rule, Statement};
use turtle_build::compile::compile;
use turtle_build::database::{Database, DatabaseRecord};
use turtle_build::tool::clean_dead;

fn s(x: &str) -> String {
    x.to_string()
}

fn record(hash: u64) -> DatabaseRecord {
    DatabaseRecord { command_hash: hash, input_signatures: vec![(s("a.c"), 1)] }
}

#[test]
fn lookup_finds_recorded_entry() {
    let mut db = Database::new();
    db.record(s("a.o"), record(42));
    let found = db.lookup(&s("a.o")).unwrap();
    assert_eq!(found.command_hash, 42);
    assert!(db.lookup(&s("b.o")).is_none());
}

#[test]
fn record_upserts_existing_entry() {
    let mut db = Database::new();
    db.record(s("a.o"), record(1));
    db.record(s("a.o"), record(2));
    assert_eq!(db.records.len(), 1);
    assert_eq!(db.lookup(&s("a.o")).unwrap().command_hash, 2);
}

#[test]
fn remove_drops_entry() {
    let mut db = Database::new();
    db.record(s("a.o"), record(1));
    db.remove(&s("a.o"));
    assert!(db.lookup(&s("a.o")).is_none());
}

#[test]
fn clean_dead_removes_only_undeclared_outputs() {
    let module = Module {
        statements: vec![
            Statement::Rule(Rule { name: s("cc"), command: s("cc") }),
            Statement::Build(Build {
                outputs: vec![s("a.o")],
                rule: s("cc"),
                inputs: vec![s("a.c")],
                implicit_inputs: vec![],
                order_only_inputs: vec![],
            }),
        ],
    };
    let modules = vec![(s("build.ninja"), module)];
    let deps = vec![(s("build.ninja"), vec![])];
    let c = compile(&modules, &deps, &s("build.ninja")).unwrap();

    let mut db = Database::new();
    db.record(s("a.o"), record(1));
    db.record(s("old.o"), record(2));
    clean_dead(&c, &mut db);
    assert!(db.lookup(&s("a.o")).is_some());
    assert!(db.lookup(&s("old.o")).is_none());
}
