use vstd::prelude::*;

verus! {

/// A named command template.  A rule named `phony` produces edges with no
/// command, used purely to aggregate dependency ordering.
#[derive(Clone, Debug)]
pub struct Rule {
    pub name: String,
    pub command: String,
}

/// One `build` statement: declared outputs produced from inputs by a rule.
/// Implicit inputs take part in staleness but not in the command line;
/// order-only inputs take part in ordering but not in staleness.
#[derive(Clone, Debug)]
pub struct Build {
    pub outputs: Vec<String>,
    pub rule: String,
    pub inputs: Vec<String>,
    pub implicit_inputs: Vec<String>,
    pub order_only_inputs: Vec<String>,
}

/// One parsed statement of a build module.
#[derive(Clone, Debug)]
pub enum Statement {
    Build(Build),
    Default(Vec<String>),
    Include(String),
    Rule(Rule),
    Submodule(String),
    VariableDefinition(String, String),
}

/// A parsed build file: an ordered sequence of statements, keyed by its
/// canonical path in the module set.  Immutable after parsing.
#[derive(Clone, Debug)]
pub struct Module {
    pub statements: Vec<Statement>,
}

} // verus!
