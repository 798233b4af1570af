use vstd::prelude::*;

verus! {

/// The character sequences behind a list of paths.
pub open spec fn path_views(v: Seq<String>) -> Seq<Seq<char>> {
    v.map_values(|s: String| s@)
}

/// One build step of the compiled graph.  `command` is the fully resolved
/// shell text; `None` marks a phony edge that only orders its inputs.
#[derive(Clone, Debug)]
pub struct BuildEdge {
    pub outputs: Vec<String>,
    pub inputs: Vec<String>,
    pub implicit_inputs: Vec<String>,
    pub order_only_inputs: Vec<String>,
    pub command: Option<String>,
}

impl BuildEdge {
    /// The declared outputs, as character sequences.
    pub open spec fn output_views(self) -> Seq<Seq<char>> {
        path_views(self.outputs@)
    }
}

/// The compiled, flattened build description: the edge list, the declared
/// (or defaulted) targets, and the optional build directory.  Immutable
/// once compiled; shared read-only during execution.
#[derive(Clone, Debug)]
pub struct Configuration {
    pub edges: Vec<BuildEdge>,
    pub default_outputs: Vec<String>,
    pub build_directory: Option<String>,
}

impl Configuration {
    /// Edge `e` declares path `p` among its outputs.
    pub open spec fn edge_produces(self, e: int, p: Seq<char>) -> bool {
        0 <= e < self.edges@.len() && self.edges@[e].output_views().contains(p)
    }

    /// The set of every declared output path.
    pub open spec fn output_set(self) -> Set<Seq<char>> {
        Set::new(|p: Seq<char>| exists|e: int| self.edge_produces(e, p))
    }

    /// Well-formed: every edge declares at least one output, no edge
    /// repeats an output, and no two edges share an output.
    pub open spec fn wf(self) -> bool {
        &&& forall|e: int|
            0 <= e < self.edges@.len() ==> (#[trigger] self.edges@[e]).outputs@.len() >= 1
        &&& forall|e: int|
            0 <= e < self.edges@.len() ==> (#[trigger] self.edges@[e]).output_views().no_duplicates()
        &&& forall|i: int, j: int, p: Seq<char>|
            self.edge_produces(i, p) && self.edge_produces(j, p) ==> i == j
    }

    /// Find the edge producing `path`, if one is declared.
    pub fn find_producer(&self, path: &String) -> (r: Option<usize>)
        ensures
            match r {
                Some(e) => self.edge_produces(e as int, path@),
                None => forall|e: int| !self.edge_produces(e, path@),
            },
    {
        let mut e: usize = 0;
        while e < self.edges.len()
            invariant
                e <= self.edges@.len(),
                forall|k: int| 0 <= k < e ==> !self.edge_produces(k, path@),
            decreases self.edges@.len() - e,
        {
            if contains_path(&self.edges[e].outputs, path) {
                return Some(e);
            }
            e = e + 1;
        }
        None
    }
}

/// Linear search for a path in a path list.
pub fn contains_path(v: &Vec<String>, s: &String) -> (r: bool)
    ensures
        r == path_views(v@).contains(s@),
{
    let mut i: usize = 0;
    while i < v.len()
        invariant
            i <= v@.len(),
            forall|k: int|
                0 <= k < v@.len() ==> #[trigger] path_views(v@)[k] == v@[k]@,
            forall|k: int| 0 <= k < i ==> path_views(v@)[k] != s@,
        decreases v@.len() - i,
    {
        if v[i] == *s {
            assert(path_views(v@).contains(s@)) by {
                assert(path_views(v@)[i as int] == s@);
            }
            return true;
        }
        i = i + 1;
    }
    false
}

} // verus!
