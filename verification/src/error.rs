use vstd::prelude::*;

verus! {

/// Every failure the build engine itself can report.  Structural errors
/// (cycles, duplicate outputs, unknown targets) are detected before any
/// command runs; `Build` stands for "a command failed" and carries no
/// detail because the failing command's own output is already visible.
#[derive(Clone, Debug, PartialEq, Eq)]
pub enum ApplicationError {
    Build,
    CircularBuildDependency,
    CircularModuleDependency,
    DuplicateOutput(String),
    MissingOutputs,
    ModuleNotFound(String),
    RuleNotFound(String),
    UnknownTarget(String),
}

} // verus!
