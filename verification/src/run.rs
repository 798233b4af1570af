use crate::configuration::{BuildEdge, Configuration};
use crate::database::{
    lookup_signature, sig_map, Database, DatabaseRecord, RecordModel,
};
use crate::error::ApplicationError;
use crate::hash::{command_hash, command_hash_spec};
use vstd::prelude::*;

verus! {

/// Instrumentation flags: they only affect what is reported, never what
/// runs, and so appear in no contract of the scheduler.
#[derive(Clone, Copy, Debug)]
pub struct Options {
    pub debug: bool,
    pub profile: bool,
}

/// The current signature of every file known to exist; a path that is
/// absent models a missing file.  Later entries win, so an upsert is a
/// push.
#[derive(Clone, Debug)]
pub struct FileState {
    pub entries: Vec<(String, u64)>,
}

impl View for FileState {
    type V = Map<Seq<char>, u64>;

    open spec fn view(&self) -> Map<Seq<char>, u64> {
        sig_map(self.entries@)
    }
}

impl FileState {
    /// No file is known.
    pub fn new() -> (r: FileState)
        ensures
            r@ == Map::<Seq<char>, u64>::empty(),
    {
        let r = FileState { entries: Vec::new() };
        proof {
            assert(r@ =~= Map::<Seq<char>, u64>::empty());
        }
        r
    }

    /// The current signature of `path`, or `None` if the file is missing.
    pub fn lookup(&self, path: &String) -> (r: Option<u64>)
        ensures
            match r {
                Some(v) => self@.contains_key(path@) && self@[path@] == v,
                None => !self@.contains_key(path@),
            },
    {
        lookup_signature(&self.entries, path)
    }

    /// Record the signature `path` has now.
    pub fn insert(&mut self, path: String, sig: u64)
        ensures
            final(self)@ == old(self)@.insert(path@, sig),
    {
        let ghost pre = self.entries@;
        self.entries.push((path, sig));
        proof {
            assert(self.entries@.drop_last() =~= pre);
        }
    }
}

/// Where one edge stands during a run.
#[derive(Clone, Copy, Debug, PartialEq, Eq, Structural)]
pub enum EdgeStatus {
    /// Not part of the requested subgraph.
    Excluded,
    /// Scheduled, but some producing edge has not finished yet.
    Waiting,
    /// Its command was dispatched and has not completed.
    Running,
    /// Finished successfully, was skipped as clean, or is a finished phony.
    Done,
    /// Its command failed.
    Failed,
}

pub open spec fn count_running(s: Seq<EdgeStatus>) -> int
    decreases s.len(),
{
    if s.len() == 0 {
        0
    } else {
        count_running(s.drop_last()) + if s.last() is Running {
            1int
        } else {
            0int
        }
    }
}

pub open spec fn count_excluded(s: Seq<EdgeStatus>) -> int
    decreases s.len(),
{
    if s.len() == 0 {
        0
    } else {
        count_excluded(s.drop_last()) + if s.last() is Excluded {
            1int
        } else {
            0int
        }
    }
}

proof fn lemma_count_running_update(s: Seq<EdgeStatus>, i: int, v: EdgeStatus)
    requires
        0 <= i < s.len(),
    ensures
        count_running(s.update(i, v)) == count_running(s)
            + (if v is Running { 1int } else { 0int })
            - (if s[i] is Running { 1int } else { 0int }),
    decreases s.len(),
{
    if i == s.len() - 1 {
        assert(s.update(i, v).drop_last() =~= s.drop_last());
    } else {
        assert(s.update(i, v).drop_last() =~= s.drop_last().update(i, v));
        lemma_count_running_update(s.drop_last(), i, v);
    }
}

proof fn lemma_count_excluded_update(s: Seq<EdgeStatus>, i: int, v: EdgeStatus)
    requires
        0 <= i < s.len(),
    ensures
        count_excluded(s.update(i, v)) == count_excluded(s)
            + (if v is Excluded { 1int } else { 0int })
            - (if s[i] is Excluded { 1int } else { 0int }),
    decreases s.len(),
{
    if i == s.len() - 1 {
        assert(s.update(i, v).drop_last() =~= s.drop_last());
    } else {
        assert(s.update(i, v).drop_last() =~= s.drop_last().update(i, v));
        lemma_count_excluded_update(s.drop_last(), i, v);
    }
}

proof fn lemma_count_excluded_bounds(s: Seq<EdgeStatus>)
    ensures
        0 <= count_excluded(s) <= s.len(),
    decreases s.len(),
{
    if s.len() > 0 {
        lemma_count_excluded_bounds(s.drop_last());
    }
}

/// The recorded signature of every listed input matches its current one,
/// and every listed input exists.
pub open spec fn inputs_match(paths: Seq<String>, rec: RecordModel, files: Map<Seq<char>, u64>) -> bool {
    forall|k: int|
        0 <= k < paths.len() ==> {
            let p = (#[trigger] paths[k])@;
            files.contains_key(p) && rec.input_signatures.contains_key(p)
                && rec.input_signatures[p] == files[p]
        }
}

/// The staleness decision for one edge.  A phony edge (no command) is
/// always clean.  A command edge is clean only when, for every declared
/// output: the output exists, a record exists, the recorded command
/// fingerprint matches the resolved command, and every explicit and
/// implicit input still has its recorded signature.
pub open spec fn edge_clean(
    edge: BuildEdge,
    db: Map<Seq<char>, RecordModel>,
    files: Map<Seq<char>, u64>,
) -> bool {
    match edge.command {
        Option::None => true,
        Option::Some(cmd) => forall|o: int|
            0 <= o < edge.outputs@.len() ==> {
                let p = (#[trigger] edge.outputs@[o])@;
                &&& files.contains_key(p)
                &&& db.contains_key(p)
                &&& db[p].command_hash == command_hash_spec(cmd@)
                &&& inputs_match(edge.inputs@, db[p], files)
                &&& inputs_match(edge.implicit_inputs@, db[p], files)
            },
    }
}

fn check_inputs_match(paths: &Vec<String>, rec: &DatabaseRecord, files: &FileState) -> (r: bool)
    ensures
        r == inputs_match(paths@, rec@, files@),
{
    let mut k: usize = 0;
    while k < paths.len()
        invariant
            k <= paths@.len(),
            forall|t: int|
                0 <= t < k ==> {
                    let p = (#[trigger] paths@[t])@;
                    files@.contains_key(p) && rec@.input_signatures.contains_key(p)
                        && rec@.input_signatures[p] == files@[p]
                },
        decreases paths@.len() - k,
    {
        let cur = files.lookup(&paths[k]);
        let recorded = lookup_signature(&rec.input_signatures, &paths[k]);
        match (cur, recorded) {
            (Some(c), Some(v)) => {
                if c != v {
                    return false;
                }
            },
            _ => {
                return false;
            },
        }
        k = k + 1;
    }
    true
}

/// Decide staleness for one edge against the database and the current
/// file signatures.
pub fn edge_is_clean(edge: &BuildEdge, database: &Database, files: &FileState) -> (r: bool)
    requires
        database.wf(),
    ensures
        r == edge_clean(*edge, database@, files@),
{
    let cmd = match &edge.command {
        Option::None => {
            return true;
        },
        Option::Some(c) => c,
    };
    let h = command_hash(cmd.as_str());
    let mut o: usize = 0;
    while o < edge.outputs.len()
        invariant
            database.wf(),
            o <= edge.outputs@.len(),
            edge.command == Option::Some(*cmd),
            h == command_hash_spec(cmd@),
            forall|t: int|
                0 <= t < o ==> {
                    let p = (#[trigger] edge.outputs@[t])@;
                    &&& files@.contains_key(p)
                    &&& database@.contains_key(p)
                    &&& database@[p].command_hash == command_hash_spec(cmd@)
                    &&& inputs_match(edge.inputs@, database@[p], files@)
                    &&& inputs_match(edge.implicit_inputs@, database@[p], files@)
                },
        decreases edge.outputs@.len() - o,
    {
        if files.lookup(&edge.outputs[o]).is_none() {
            return false;
        }
        let rec = match database.lookup(&edge.outputs[o]) {
            Option::None => {
                return false;
            },
            Option::Some(rec) => rec,
        };
        if rec.command_hash != h {
            return false;
        }
        if !check_inputs_match(&edge.inputs, rec, files) {
            return false;
        }
        if !check_inputs_match(&edge.implicit_inputs, rec, files) {
            return false;
        }
        o = o + 1;
    }
    true
}

} // verus!
use vstd::prelude::*;

verus! {

/// Every producer of one of `paths` has finished successfully.
pub open spec fn paths_done(c: Configuration, status: Seq<EdgeStatus>, paths: Seq<String>) -> bool {
    forall|j: int, k: int|
        0 <= k < paths.len() && #[trigger] c.edge_produces(j, paths[k]@) ==> status[j] is Done
}

/// Every producer of one of `paths` is part of the scheduled subgraph.
pub open spec fn paths_scheduled(
    c: Configuration,
    status: Seq<EdgeStatus>,
    paths: Seq<String>,
) -> bool {
    forall|j: int, k: int|
        0 <= k < paths.len() && #[trigger] c.edge_produces(j, paths[k]@)
            ==> !(status[j] is Excluded)
}

/// The outputs to satisfy: the requested ones, or the configuration's
/// defaults when none were requested.
pub open spec fn spec_targets(c: Configuration, requested: Seq<String>) -> Seq<String> {
    if requested.len() > 0 {
        requested
    } else {
        c.default_outputs@
    }
}

/// The whole state of one build run, driven step by step: the caller asks
/// for the next action, performs dispatched commands, and reports each
/// completion back.
pub struct BuildState {
    pub configuration: Configuration,
    pub options: Options,
    pub database: Database,
    pub files: FileState,
    pub status: Vec<EdgeStatus>,
    pub running: usize,
    pub job_limit: usize,
    pub failed: bool,
}

/// What the scheduler asks of its caller next.
pub enum Action {
    /// Run this edge's resolved command.
    Dispatch(usize, String),
    /// This edge finished without a command: it was clean or phony.
    Skipped(usize),
    /// Commands are in flight and nothing else can start: report a
    /// completion next.
    Wait,
    /// The run is over.
    Finished(Result<(), ApplicationError>),
}

impl BuildState {
    /// Every producing edge of `i`'s inputs has finished.
    pub open spec fn edge_ready(self, i: int) -> bool {
        &&& paths_done(self.configuration, self.status@, self.configuration.edges@[i].inputs@)
        &&& paths_done(
            self.configuration,
            self.status@,
            self.configuration.edges@[i].implicit_inputs@,
        )
        &&& paths_done(
            self.configuration,
            self.status@,
            self.configuration.edges@[i].order_only_inputs@,
        )
    }

    /// The scheduled subgraph is closed: every producer of a scheduled
    /// edge's input is itself scheduled.
    pub open spec fn closed(self) -> bool {
        forall|i: int|
            0 <= i < self.status@.len() && !((#[trigger] self.status@[i]) is Excluded) ==> {
                &&& paths_scheduled(
                    self.configuration,
                    self.status@,
                    self.configuration.edges@[i].inputs@,
                )
                &&& paths_scheduled(
                    self.configuration,
                    self.status@,
                    self.configuration.edges@[i].implicit_inputs@,
                )
                &&& paths_scheduled(
                    self.configuration,
                    self.status@,
                    self.configuration.edges@[i].order_only_inputs@,
                )
            }
    }

    /// Well-formed run state.  `running <= job_limit` is the concurrency
    /// bound: never more than `job_limit` commands are in flight.
    pub open spec fn wf(self) -> bool {
        &&& self.configuration.wf()
        &&& self.database.wf()
        &&& self.status@.len() == self.configuration.edges@.len()
        &&& 1 <= self.job_limit
        &&& self.running == count_running(self.status@)
        &&& self.running <= self.job_limit
        &&& self.closed()
        &&& forall|i: int|
            0 <= i < self.status@.len() && ((#[trigger] self.status@[i]) is Failed)
                ==> self.failed
    }
}

fn producers_done(
    configuration: &Configuration,
    status: &Vec<EdgeStatus>,
    paths: &Vec<String>,
) -> (r: bool)
    requires
        configuration.wf(),
        status@.len() == configuration.edges@.len(),
    ensures
        r == paths_done(*configuration, status@, paths@),
{
    let mut k: usize = 0;
    while k < paths.len()
        invariant
            configuration.wf(),
            status@.len() == configuration.edges@.len(),
            k <= paths@.len(),
            forall|j: int, kk: int|
                0 <= kk < k && #[trigger] configuration.edge_produces(j, paths@[kk]@)
                    ==> status@[j] is Done,
        decreases paths@.len() - k,
    {
        match configuration.find_producer(&paths[k]) {
            Option::Some(j) => {
                if !(status[j] == EdgeStatus::Done) {
                    proof {
                        assert(configuration.edge_produces(j as int, paths@[k as int]@));
                    }
                    return false;
                }
            },
            Option::None => {},
        }
        k = k + 1;
    }
    true
}

fn schedule_producers(
    configuration: &Configuration,
    status: &mut Vec<EdgeStatus>,
    paths: &Vec<String>,
    changed: &mut bool,
)
    requires
        configuration.wf(),
        old(status)@.len() == configuration.edges@.len(),
    ensures
        final(status)@.len() == old(status)@.len(),
        forall|i: int|
            0 <= i < old(status)@.len() ==> (final(status)@[i] == old(status)@[i]
                || (old(status)@[i] is Excluded && final(status)@[i] is Waiting)),
        paths_scheduled(*configuration, final(status)@, paths@),
        (final(status)@ == old(status)@ && *final(changed) == *old(changed))
            || (*final(changed) && count_excluded(final(status)@) < count_excluded(
            old(status)@,
        )),
{
    let ghost orig = old(status)@;
    let mut k: usize = 0;
    while k < paths.len()
        invariant
            configuration.wf(),
            status@.len() == orig.len(),
            orig.len() == configuration.edges@.len(),
            k <= paths@.len(),
            forall|i: int|
                0 <= i < orig.len() ==> (status@[i] == orig[i]
                    || (orig[i] is Excluded && status@[i] is Waiting)),
            forall|j: int, kk: int|
                0 <= kk < k && #[trigger] configuration.edge_produces(j, paths@[kk]@)
                    ==> !(status@[j] is Excluded),
            (status@ == orig && *changed == *old(changed))
                || (*changed && count_excluded(status@) < count_excluded(orig)),
        decreases paths@.len() - k,
    {
        match configuration.find_producer(&paths[k]) {
            Option::Some(j) => {
                if status[j] == EdgeStatus::Excluded {
                    proof {
                        lemma_count_excluded_update(status@, j as int, EdgeStatus::Waiting);
                    }
                    status.set(j, EdgeStatus::Waiting);
                    *changed = true;
                }
            },
            Option::None => {},
        }
        proof {
            assert forall|j: int, kk: int|
                0 <= kk < k + 1 && #[trigger] configuration.edge_produces(j, paths@[kk]@)
                    implies !(status@[j] is Excluded) by {}
        }
        k = k + 1;
    }
}

proof fn lemma_count_running_none(s: Seq<EdgeStatus>)
    requires
        forall|i: int| 0 <= i < s.len() ==> !((#[trigger] s[i]) is Running),
    ensures
        count_running(s) == 0,
    decreases s.len(),
{
    if s.len() > 0 {
        assert(forall|i: int|
            0 <= i < s.drop_last().len() ==> !((#[trigger] s.drop_last()[i]) is Running));
        lemma_count_running_none(s.drop_last());
    }
}

} // verus!
use vstd::prelude::*;

verus! {

/// A record written after a successful completion of `edge`: the current
/// command fingerprint, and the current signature of every explicit and
/// implicit input that exists.
pub open spec fn fresh_record(edge: BuildEdge, rec: RecordModel, files: Map<Seq<char>, u64>) -> bool {
    &&& edge.command matches Option::Some(cmd) && rec.command_hash == command_hash_spec(cmd@)
    &&& forall|p: Seq<char>|
        #[trigger] rec.input_signatures.contains_key(p)
            ==> files.contains_key(p) && rec.input_signatures[p] == files[p]
    &&& forall|k: int|
        0 <= k < edge.inputs@.len() && files.contains_key((#[trigger] edge.inputs@[k])@)
            ==> rec.input_signatures.contains_key(edge.inputs@[k]@)
    &&& forall|k: int|
        0 <= k < edge.implicit_inputs@.len()
            && files.contains_key((#[trigger] edge.implicit_inputs@[k])@)
            ==> rec.input_signatures.contains_key(edge.implicit_inputs@[k]@)
}

/// Once an edge holds a fresh record and all its staleness inputs exist,
/// the staleness decision finds it clean: an identical re-run skips it.
pub proof fn lemma_fresh_record_clean(
    edge: BuildEdge,
    db: Map<Seq<char>, RecordModel>,
    files: Map<Seq<char>, u64>,
)
    requires
        edge.command is Some,
        forall|o: int|
            0 <= o < edge.outputs@.len() ==> {
                let p = (#[trigger] edge.outputs@[o])@;
                files.contains_key(p) && db.contains_key(p) && fresh_record(edge, db[p], files)
            },
        forall|k: int|
            0 <= k < edge.inputs@.len() ==> files.contains_key((#[trigger] edge.inputs@[k])@),
        forall|k: int|
            0 <= k < edge.implicit_inputs@.len() ==> files.contains_key(
                (#[trigger] edge.implicit_inputs@[k])@,
            ),
    ensures
        edge_clean(edge, db, files),
{
}

fn collect_signatures(edge: &BuildEdge, files: &FileState) -> (r: Vec<(String, u64)>)
    ensures
        forall|p: Seq<char>|
            #[trigger] sig_map(r@).contains_key(p)
                ==> files@.contains_key(p) && sig_map(r@)[p] == files@[p],
        forall|k: int|
            0 <= k < edge.inputs@.len() && files@.contains_key((#[trigger] edge.inputs@[k])@)
                ==> sig_map(r@).contains_key(edge.inputs@[k]@),
        forall|k: int|
            0 <= k < edge.implicit_inputs@.len()
                && files@.contains_key((#[trigger] edge.implicit_inputs@[k])@)
                ==> sig_map(r@).contains_key(edge.implicit_inputs@[k]@),
{
    let mut r: Vec<(String, u64)> = Vec::new();
    let mut k: usize = 0;
    while k < edge.inputs.len()
        invariant
            k <= edge.inputs@.len(),
            forall|p: Seq<char>|
                #[trigger] sig_map(r@).contains_key(p)
                    ==> files@.contains_key(p) && sig_map(r@)[p] == files@[p],
            forall|t: int|
                0 <= t < k && files@.contains_key((#[trigger] edge.inputs@[t])@)
                    ==> sig_map(r@).contains_key(edge.inputs@[t]@),
        decreases edge.inputs@.len() - k,
    {
        match files.lookup(&edge.inputs[k]) {
            Option::Some(sig) => {
                let ghost pre = r@;
                r.push((edge.inputs[k].clone(), sig));
                proof {
                    assert(r@.drop_last() =~= pre);
                    assert(r@.last().0@ == edge.inputs@[k as int]@);
                    assert(sig_map(r@) == sig_map(pre).insert(edge.inputs@[k as int]@, sig));
                }
            },
            Option::None => {},
        }
        k = k + 1;
    }
    let mut k2: usize = 0;
    while k2 < edge.implicit_inputs.len()
        invariant
            k2 <= edge.implicit_inputs@.len(),
            forall|p: Seq<char>|
                #[trigger] sig_map(r@).contains_key(p)
                    ==> files@.contains_key(p) && sig_map(r@)[p] == files@[p],
            forall|t: int|
                0 <= t < edge.inputs@.len() && files@.contains_key((#[trigger] edge.inputs@[t])@)
                    ==> sig_map(r@).contains_key(edge.inputs@[t]@),
            forall|t: int|
                0 <= t < k2 && files@.contains_key((#[trigger] edge.implicit_inputs@[t])@)
                    ==> sig_map(r@).contains_key(edge.implicit_inputs@[t]@),
        decreases edge.implicit_inputs@.len() - k2,
    {
        match files.lookup(&edge.implicit_inputs[k2]) {
            Option::Some(sig) => {
                let ghost pre = r@;
                r.push((edge.implicit_inputs[k2].clone(), sig));
                proof {
                    assert(r@.drop_last() =~= pre);
                    assert(r@.last().0@ == edge.implicit_inputs@[k2 as int]@);
                    assert(sig_map(r@) == sig_map(pre).insert(
                        edge.implicit_inputs@[k2 as int]@, sig));
                }
            },
            Option::None => {},
        }
        k2 = k2 + 1;
    }
    r
}

impl BuildState {
    /// Build the run state for the requested outputs (or the defaults):
    /// resolve each target to its producing edge, schedule the producing
    /// edges of every scheduled edge's inputs, and start with nothing
    /// running and no failure observed.  A requested output with neither
    /// a producing edge nor an existing file is an unknown target.
    pub fn new(
        configuration: Configuration,
        requested_outputs: &Vec<String>,
        options: Options,
        job_limit: usize,
        database: Database,
        files: FileState,
    ) -> (r: Result<BuildState, ApplicationError>)
        requires
            configuration.wf(),
            database.wf(),
            1 <= job_limit,
        ensures
            r matches Ok(s) ==> s.wf(),
            r matches Ok(s) ==> s.configuration == configuration && s.database == database
                && s.files == files && s.job_limit == job_limit && s.options == options,
            r matches Ok(s) ==> !s.failed && s.running == 0 && s.run_invariant(),
            r matches Ok(s) ==> forall|i: int|
                0 <= i < s.status@.len() ==> ((#[trigger] s.status@[i]) is Excluded
                    || s.status@[i] is Waiting),
            r matches Ok(s) ==> forall|t: int, j: int|
                0 <= t < spec_targets(configuration, requested_outputs@).len()
                    && #[trigger] configuration.edge_produces(
                    j,
                    spec_targets(configuration, requested_outputs@)[t]@,
                ) ==> s.status@[j] is Waiting,
            r is Ok ==> forall|t: int|
                0 <= t < spec_targets(configuration, requested_outputs@).len()
                    ==> (exists|j: int| configuration.edge_produces(
                    j,
                    (#[trigger] spec_targets(configuration, requested_outputs@)[t])@,
                )) || files@.contains_key(spec_targets(configuration, requested_outputs@)[t]@),
            r matches Err(e) ==> (e matches ApplicationError::UnknownTarget(missing)
                && exists|t: int|
                0 <= t < spec_targets(configuration, requested_outputs@).len()
                    && (#[trigger] spec_targets(configuration, requested_outputs@)[t])@
                    == missing@),
            r matches Err(e) ==> (e matches ApplicationError::UnknownTarget(missing)
                && forall|j: int| !configuration.edge_produces(j, missing@)),
            r matches Err(e) ==> (e matches ApplicationError::UnknownTarget(missing)
                && !files@.contains_key(missing@)),
    {
        let ghost targets_spec = spec_targets(configuration, requested_outputs@);
        let n = configuration.edges.len();
        let mut status: Vec<EdgeStatus> = Vec::new();
        while status.len() < n
            invariant
                status@.len() <= n,
                forall|i: int| 0 <= i < status@.len() ==> (#[trigger] status@[i]) is Excluded,
            decreases n - status@.len(),
        {
            status.push(EdgeStatus::Excluded);
        }
        let targets: &Vec<String> = if requested_outputs.len() > 0 {
            requested_outputs
        } else {
            &configuration.default_outputs
        };
        proof {
            assert(targets@ == targets_spec);
        }
        let mut t: usize = 0;
        while t < targets.len()
            invariant
                configuration.wf(),
                status@.len() == n,
                n == configuration.edges@.len(),
                targets@ == targets_spec,
                targets_spec == spec_targets(configuration, requested_outputs@),
                t <= targets@.len(),
                forall|i: int|
                    0 <= i < n ==> ((#[trigger] status@[i]) is Excluded
                        || status@[i] is Waiting),
                forall|tt: int, j: int|
                    0 <= tt < t && #[trigger] configuration.edge_produces(j, targets@[tt]@)
                        ==> status@[j] is Waiting,
                forall|tt: int|
                    0 <= tt < t ==> (exists|j: int| configuration.edge_produces(
                        j,
                        (#[trigger] targets@[tt])@,
                    )) || files@.contains_key(targets@[tt]@),
            decreases targets@.len() - t,
        {
            match configuration.find_producer(&targets[t]) {
                Option::Some(j) => {
                    proof {
                        assert(configuration.edge_produces(j as int, targets@[t as int]@));
                    }
                    status.set(j, EdgeStatus::Waiting);
                    proof {
                        assert forall|tt: int, jj: int|
                            0 <= tt < t + 1 && #[trigger] configuration.edge_produces(
                                jj,
                                targets@[tt]@,
                            ) implies status@[jj] is Waiting by {
                            if tt < t {
                            } else {
                                assert(jj == j as int);
                            }
                        }
                    }
                },
                Option::None => {
                    if files.lookup(&targets[t]).is_none() {
                        let p = targets[t].clone();
                        proof {
                            assert(spec_targets(configuration, requested_outputs@)
                                == targets_spec);
                            assert((spec_targets(configuration, requested_outputs@)[
                                t as int])@ == p@);
                            assert(forall|jj: int| !configuration.edge_produces(jj, p@));
                            assert(!files@.contains_key(p@));
                        }
                        return Err(ApplicationError::UnknownTarget(p));
                    }
                },
            }
            t = t + 1;
        }
        let ghost cfg0 = configuration;
        let ghost db0 = database;
        let ghost files0 = files;
        // Close the subgraph: schedule the producers of every scheduled
        // edge's inputs until a full pass changes nothing.
        loop
            invariant
                configuration == cfg0,
                database == db0,
                files == files0,
                database.wf(),
                configuration.wf(),
                1 <= job_limit,
                targets_spec == spec_targets(cfg0, requested_outputs@),
                forall|tt: int|
                    0 <= tt < targets_spec.len() ==> (exists|j: int| cfg0.edge_produces(
                        j,
                        (#[trigger] targets_spec[tt])@,
                    )) || files0@.contains_key(targets_spec[tt]@),
                status@.len() == n,
                n == configuration.edges@.len(),
                forall|i: int|
                    0 <= i < n ==> ((#[trigger] status@[i]) is Excluded
                        || status@[i] is Waiting),
                forall|tt: int, j: int|
                    0 <= tt < targets_spec.len() && #[trigger] configuration.edge_produces(
                        j,
                        targets_spec[tt]@,
                    ) ==> status@[j] is Waiting,
            decreases count_excluded(status@),
        {
            let ghost pass_start = status@;
            let mut changed = false;
            let mut i: usize = 0;
            while i < n
                invariant
                    configuration == cfg0,
                    database == db0,
                    files == files0,
                    database.wf(),
                    configuration.wf(),
                    1 <= job_limit,
                    targets_spec == spec_targets(cfg0, requested_outputs@),
                    forall|tt: int|
                        0 <= tt < targets_spec.len() ==> (exists|j: int| cfg0.edge_produces(
                            j,
                            (#[trigger] targets_spec[tt])@,
                        )) || files0@.contains_key(targets_spec[tt]@),
                    status@.len() == n,
                    n == configuration.edges@.len(),
                    i <= n,
                    forall|ii: int|
                        0 <= ii < n ==> ((#[trigger] status@[ii]) is Excluded
                            || status@[ii] is Waiting),
                    forall|tt: int, j: int|
                        0 <= tt < targets_spec.len() && #[trigger] configuration.edge_produces(
                            j,
                            targets_spec[tt]@,
                        ) ==> status@[j] is Waiting,
                    !changed ==> status@ == pass_start,
                    changed ==> count_excluded(status@) < count_excluded(pass_start),
                    !changed ==> forall|ii: int|
                        0 <= ii < i && !((#[trigger] status@[ii]) is Excluded) ==> {
                            &&& paths_scheduled(
                                configuration,
                                status@,
                                configuration.edges@[ii].inputs@,
                            )
                            &&& paths_scheduled(
                                configuration,
                                status@,
                                configuration.edges@[ii].implicit_inputs@,
                            )
                            &&& paths_scheduled(
                                configuration,
                                status@,
                                configuration.edges@[ii].order_only_inputs@,
                            )
                        },
                decreases n - i,
            {
                let waiting = status[i] == EdgeStatus::Waiting;
                if waiting {
                    schedule_producers(
                        &configuration,
                        &mut status,
                        &configuration.edges[i].inputs,
                        &mut changed,
                    );
                    schedule_producers(
                        &configuration,
                        &mut status,
                        &configuration.edges[i].implicit_inputs,
                        &mut changed,
                    );
                    schedule_producers(
                        &configuration,
                        &mut status,
                        &configuration.edges[i].order_only_inputs,
                        &mut changed,
                    );
                }
                i = i + 1;
            }
            proof {
                lemma_count_excluded_bounds(status@);
                if changed {
                    assert(count_excluded(status@) < count_excluded(pass_start));
                }
            }
            if !changed {
                let s = BuildState {
                    configuration,
                    options,
                    database,
                    files,
                    status,
                    running: 0,
                    job_limit,
                    failed: false,
                };
                proof {
                    lemma_count_running_none(s.status@);
                    assert(s.wf());
                    assert(s.run_invariant());
                    assert(spec_targets(cfg0, requested_outputs@) == targets_spec);
                    assert(forall|tt: int, j: int|
                        0 <= tt < spec_targets(cfg0, requested_outputs@).len()
                            && #[trigger] cfg0.edge_produces(
                            j,
                            spec_targets(cfg0, requested_outputs@)[tt]@,
                        ) ==> s.status@[j] is Waiting);
                    assert(forall|tt: int|
                        0 <= tt < spec_targets(cfg0, requested_outputs@).len()
                            ==> (exists|j: int| cfg0.edge_produces(
                            j,
                            (#[trigger] spec_targets(cfg0, requested_outputs@)[tt])@,
                        )) || files0@.contains_key(spec_targets(cfg0, requested_outputs@)[tt]@));
                }
                return Ok(s);
            }
        }
    }
}

} // verus!
use vstd::prelude::*;

verus! {

/// A completion is a success only when the command exited successfully
/// and every declared output exists afterwards.
pub open spec fn completion_success(exit_success: bool, sigs: Seq<Option<u64>>) -> bool {
    exit_success && forall|k: int| 0 <= k < sigs.len() ==> (#[trigger] sigs[k]) is Some
}

proof fn lemma_count_running_pos(s: Seq<EdgeStatus>, i: int)
    requires
        0 <= i < s.len(),
        s[i] is Running,
    ensures
        count_running(s) >= 1,
    decreases s.len(),
{
    if i == s.len() - 1 {
        lemma_count_running_bounds(s.drop_last());
    } else {
        lemma_count_running_pos(s.drop_last(), i);
    }
}

proof fn lemma_count_running_bounds(s: Seq<EdgeStatus>)
    ensures
        0 <= count_running(s) <= s.len(),
    decreases s.len(),
{
    if s.len() > 0 {
        lemma_count_running_bounds(s.drop_last());
    }
}

proof fn lemma_count_running_zero(s: Seq<EdgeStatus>)
    requires
        count_running(s) == 0,
    ensures
        forall|i: int| 0 <= i < s.len() ==> !((#[trigger] s[i]) is Running),
    decreases s.len(),
{
    if s.len() > 0 {
        lemma_count_running_bounds(s.drop_last());
        lemma_count_running_zero(s.drop_last());
        assert(forall|i: int| 0 <= i < s.len() - 1 ==> s[i] == s.drop_last()[i]);
    }
}

fn all_some(v: &Vec<Option<u64>>) -> (r: bool)
    ensures
        r == forall|k: int| 0 <= k < v@.len() ==> (#[trigger] v@[k]) is Some,
{
    let mut k: usize = 0;
    while k < v.len()
        invariant
            k <= v@.len(),
            forall|t: int| 0 <= t < k ==> (#[trigger] v@[t]) is Some,
        decreases v@.len() - k,
    {
        if v[k].is_none() {
            return false;
        }
        k = k + 1;
    }
    true
}

impl BuildState {
    fn check_ready(&self, i: usize) -> (r: bool)
        requires
            self.configuration.wf(),
            self.status@.len() == self.configuration.edges@.len(),
            i < self.configuration.edges@.len(),
        ensures
            r == self.edge_ready(i as int),
    {
        producers_done(&self.configuration, &self.status, &self.configuration.edges[i].inputs)
            && producers_done(
            &self.configuration,
            &self.status,
            &self.configuration.edges[i].implicit_inputs,
        ) && producers_done(
            &self.configuration,
            &self.status,
            &self.configuration.edges[i].order_only_inputs,
        )
    }

    /// Decide the next scheduling step.  A clean or phony edge whose
    /// producers have finished completes without any command; a stale
    /// edge is dispatched only while no failure has been observed and
    /// fewer than `job_limit` commands are in flight; after a failure
    /// in-flight commands are awaited but nothing new starts.
    pub fn next_action(&mut self) -> (r: Action)
        requires
            old(self).wf(),
            old(self).run_invariant(),
        ensures
            final(self).wf(),
            final(self).run_invariant(),
            final(self).configuration == old(self).configuration,
            final(self).database == old(self).database,
            final(self).files == old(self).files,
            final(self).job_limit == old(self).job_limit,
            final(self).options == old(self).options,
            final(self).failed == old(self).failed,
            old(self).failed ==> !(r is Dispatch),
            r matches Action::Dispatch(i, cmd) ==> dispatchable(*old(self), i as int),
            match r {
                Action::Dispatch(i, cmd) => {
                    &&& !old(self).failed
                    &&& old(self).running < old(self).job_limit
                    &&& i < old(self).status@.len()
                    &&& old(self).status@[i as int] is Waiting
                    &&& old(self).edge_ready(i as int)
                    &&& old(self).configuration.edges@[i as int].command matches Option::Some(c)
                        && cmd == c
                    &&& !edge_clean(
                        old(self).configuration.edges@[i as int],
                        old(self).database@,
                        old(self).files@,
                    )
                    &&& final(self).status@ == old(self).status@.update(
                        i as int,
                        EdgeStatus::Running,
                    )
                    &&& final(self).running == old(self).running + 1
                },
                Action::Skipped(i) => {
                    &&& !old(self).failed
                    &&& i < old(self).status@.len()
                    &&& old(self).status@[i as int] is Waiting
                    &&& old(self).edge_ready(i as int)
                    &&& (old(self).configuration.edges@[i as int].command is None || edge_clean(
                        old(self).configuration.edges@[i as int],
                        old(self).database@,
                        old(self).files@,
                    ))
                    &&& final(self).status@ == old(self).status@.update(i as int, EdgeStatus::Done)
                    &&& final(self).running == old(self).running
                },
                Action::Wait => {
                    &&& *final(self) == *old(self)
                    &&& old(self).running > 0
                    &&& (!old(self).failed && old(self).running < old(self).job_limit
                        ==> forall|i: int|
                        0 <= i < old(self).status@.len()
                            ==> !((#[trigger] old(self).status@[i]) is Waiting
                            && old(self).edge_ready(i)))
                },
                Action::Finished(res) => {
                    &&& *final(self) == *old(self)
                    &&& old(self).running == 0
                    &&& match res {
                        Ok(u) => !old(self).failed && forall|i: int|
                            0 <= i < old(self).status@.len()
                                ==> ((#[trigger] old(self).status@[i]) is Done
                                || old(self).status@[i] is Excluded),
                        Err(e) => {
                            ||| (e == ApplicationError::Build && old(self).failed)
                            ||| (e == ApplicationError::CircularBuildDependency
                                && !old(self).failed && (exists|i: int|
                                0 <= i < old(self).status@.len()
                                    && (#[trigger] old(self).status@[i]) is Waiting)
                                && forall|i: int|
                                0 <= i < old(self).status@.len()
                                    && (#[trigger] old(self).status@[i]) is Waiting
                                    ==> !old(self).edge_ready(i))
                        },
                    }
                },
            },
    {
        let n = self.configuration.edges.len();
        if self.failed {
            if self.running > 0 {
                return Action::Wait;
            }
            return Action::Finished(Err(ApplicationError::Build));
        }
        let mut any_waiting = false;
        let mut i: usize = 0;
        while i < n
            invariant
                self.wf(),
                self.run_invariant(),
                *self == *old(self),
                !self.failed,
                n == self.configuration.edges@.len(),
                i <= n,
                forall|ii: int|
                    0 <= ii < i ==> !((#[trigger] self.status@[ii]) is Waiting
                        && self.edge_ready(ii)),
                any_waiting == exists|ii: int|
                    0 <= ii < i && (#[trigger] self.status@[ii]) is Waiting,
            decreases n - i,
        {
            if self.status[i] == EdgeStatus::Waiting {
                any_waiting = true;
                proof {
                    assert(self.status@[i as int] is Waiting);
                }
                if self.check_ready(i) {
                    match &self.configuration.edges[i].command {
                        Option::None => {
                            proof {
                                lemma_count_running_update(
                                    self.status@,
                                    i as int,
                                    EdgeStatus::Done,
                                );
                            }
                            self.status.set(i, EdgeStatus::Done);
                            proof {
                                lemma_step_preserves_run_invariant(
                                    *old(self),
                                    *self,
                                    i as int,
                                );
                            }
                            return Action::Skipped(i);
                        },
                        Option::Some(c) => {
                            let clean = edge_is_clean(
                                &self.configuration.edges[i],
                                &self.database,
                                &self.files,
                            );
                            if clean {
                                proof {
                                    lemma_count_running_update(
                                        self.status@,
                                        i as int,
                                        EdgeStatus::Done,
                                    );
                                }
                                self.status.set(i, EdgeStatus::Done);
                                proof {
                                    lemma_step_preserves_run_invariant(
                                        *old(self),
                                        *self,
                                        i as int,
                                    );
                                }
                                return Action::Skipped(i);
                            } else if self.running < self.job_limit {
                                let cmd = c.clone();
                                proof {
                                    lemma_count_running_update(
                                        self.status@,
                                        i as int,
                                        EdgeStatus::Running,
                                    );
                                }
                                self.status.set(i, EdgeStatus::Running);
                                self.running = self.running + 1;
                                proof {
                                    lemma_step_preserves_run_invariant(
                                        *old(self),
                                        *self,
                                        i as int,
                                    );
                                }
                                return Action::Dispatch(i, cmd);
                            } else {
                                return Action::Wait;
                            }
                        },
                    }
                }
            }
            i = i + 1;
        }
        if self.running > 0 {
            return Action::Wait;
        }
        if any_waiting {
            return Action::Finished(Err(ApplicationError::CircularBuildDependency));
        }
        proof {
            lemma_count_running_zero(self.status@);
        }
        return Action::Finished(Ok(()));
    }
}

} // verus!
use crate::configuration::path_views;
use vstd::prelude::*;

verus! {

impl BuildState {
    /// Record the completion of a dispatched command.  On success the
    /// edge's outputs get their new signatures, a fresh record is written
    /// for every output, and the edge is done — even when another edge
    /// has already failed, so finished work is never lost.  On failure
    /// (non-zero exit, or a declared output missing afterwards) the edge
    /// and the whole run are marked failed and nothing is recorded.
    pub fn complete(&mut self, edge: usize, exit_success: bool, output_signatures: &Vec<Option<u64>>)
        requires
            old(self).wf(),
            old(self).run_invariant(),
            edge < old(self).status@.len(),
            old(self).status@[edge as int] is Running,
            old(self).configuration.edges@[edge as int].command is Some,
            output_signatures@.len() == old(self).configuration.edges@[
                edge as int
            ].outputs@.len(),
        ensures
            final(self).wf(),
            final(self).run_invariant(),
            final(self).configuration == old(self).configuration,
            final(self).job_limit == old(self).job_limit,
            final(self).options == old(self).options,
            final(self).running == old(self).running - 1,
            completion_success(exit_success, output_signatures@) ==> {
                let e = old(self).configuration.edges@[edge as int];
                &&& final(self).status@ == old(self).status@.update(edge as int, EdgeStatus::Done)
                &&& final(self).failed == old(self).failed
                &&& forall|k: int|
                    0 <= k < e.outputs@.len() ==> final(self).files@.contains_key(
                        (#[trigger] e.outputs@[k])@,
                    ) && final(self).files@[e.outputs@[k]@] == output_signatures@[k].unwrap()
                &&& forall|p: Seq<char>|
                    !(#[trigger] path_views(e.outputs@).contains(p))
                        ==> (final(self).files@.contains_key(p) == old(self).files@.contains_key(p) && (old(self).files@.contains_key(p) ==> final(self).files@[p] == old(self).files@[p]))
                &&& forall|k: int|
                    0 <= k < e.outputs@.len() ==> final(self).database@.contains_key(
                        (#[trigger] e.outputs@[k])@,
                    ) && fresh_record(e, final(self).database@[e.outputs@[k]@], final(self).files@)
                &&& forall|p: Seq<char>|
                    !(#[trigger] path_views(e.outputs@).contains(p))
                        ==> (final(self).database@.contains_key(p) == old(self).database@.contains_key(p) && (old(self).database@.contains_key(p)
                        ==> final(self).database@[p] == old(self).database@[p]))
            },
            !completion_success(exit_success, output_signatures@) ==> {
                &&& final(self).status@ == old(self).status@.update(edge as int, EdgeStatus::Failed)
                &&& final(self).failed
                &&& final(self).database == old(self).database
                &&& final(self).files == old(self).files
            },
    {
        proof {
            lemma_count_running_pos(self.status@, edge as int);
        }
        let success = exit_success && all_some(output_signatures);
        if !success {
            proof {
                lemma_count_running_update(self.status@, edge as int, EdgeStatus::Failed);
            }
            self.status.set(edge, EdgeStatus::Failed);
            self.running = self.running - 1;
            self.failed = true;
            proof {
                assert(forall|j: int|
                    0 <= j < old(self).status@.len() && ((#[trigger] old(self).status@[j])
                        is Done) ==> self.status@[j] is Done);
                assert forall|k: int|
                    0 <= k < self.status@.len() && (((#[trigger] self.status@[k]) is Running)
                        || self.status@[k] is Done) implies self.edge_ready(k) by {
                    assert(old(self).status@[k] == self.status@[k]);
                    assert(old(self).edge_ready(k));
                }
                assert forall|k: int|
                    0 <= k < self.status@.len() && ((#[trigger] self.status@[k]) is Done)
                        && self.configuration.edges@[k].command is Some && inputs_present(
                        self.configuration.edges@[k],
                        self.files@,
                    ) implies edge_clean(
                    self.configuration.edges@[k],
                    self.database@,
                    self.files@,
                ) by {
                    assert(old(self).status@[k] is Done);
                }
            }
            return;
        }
        let ghost e_spec = self.configuration.edges@[edge as int];
        let ghost files0 = self.files@;
        let n_out = self.configuration.edges[edge].outputs.len();
        let mut k: usize = 0;
        while k < n_out
            invariant
                self.configuration.wf(),
                edge < self.configuration.edges@.len(),
                e_spec == self.configuration.edges@[edge as int],
                n_out == e_spec.outputs@.len(),
                output_signatures@.len() == n_out,
                completion_success(true, output_signatures@),
                k <= n_out,
                self.configuration == old(self).configuration,
                self.database == old(self).database,
                self.status == old(self).status,
                self.running == old(self).running,
                self.failed == old(self).failed,
                self.job_limit == old(self).job_limit,
                self.options == old(self).options,
                files0 == old(self).files@,
                forall|t: int|
                    0 <= t < k ==> self.files@.contains_key((#[trigger] e_spec.outputs@[t])@)
                        && self.files@[e_spec.outputs@[t]@] == output_signatures@[t].unwrap(),
                forall|p: Seq<char>|
                    !(#[trigger] path_views(e_spec.outputs@.take(k as int)).contains(p))
                        ==> (self.files@.contains_key(p) == files0.contains_key(p)
                        && (files0.contains_key(p) ==> self.files@[p] == files0[p])),
            decreases n_out - k,
        {
            let ghost pre_files = self.files@;
            match output_signatures[k] {
                Option::Some(sig) => {
                    let path = self.configuration.edges[edge].outputs[k].clone();
                    self.files.insert(path, sig);
                },
                Option::None => {
                    proof {
                        assert(output_signatures@[k as int] is Some);
                        assert(false);
                    }
                },
            }
            proof {
                assert(e_spec.outputs@.take(k + 1).drop_last() =~= e_spec.outputs@.take(
                    k as int,
                ));
                assert forall|p: Seq<char>|
                    !(#[trigger] path_views(e_spec.outputs@.take(k + 1)).contains(p)) implies (
                self.files@.contains_key(p) == files0.contains_key(p) && (files0.contains_key(p)
                    ==> self.files@[p] == files0[p])) by {
                    assert(forall|t: int|
                        0 <= t < k + 1 ==> path_views(e_spec.outputs@.take(k + 1))[t]
                            == (#[trigger] e_spec.outputs@.take(k + 1)[t])@);
                    assert(e_spec.outputs@.take(k + 1)[k as int] == e_spec.outputs@[k as int]);
                    assert(path_views(e_spec.outputs@.take(k + 1))[k as int]
                        == e_spec.outputs@[k as int]@);
                    assert(p != e_spec.outputs@[k as int]@);
                    assert(!path_views(e_spec.outputs@.take(k as int)).contains(p)) by {
                        if path_views(e_spec.outputs@.take(k as int)).contains(p) {
                            let t = choose|t: int|
                                0 <= t < k && path_views(e_spec.outputs@.take(k as int))[t] == p;
                            assert(path_views(e_spec.outputs@.take(k + 1))[t] == p);
                        }
                    }
                }
                assert forall|t: int|
                    0 <= t < k + 1 implies self.files@.contains_key(
                    (#[trigger] e_spec.outputs@[t])@,
                ) && self.files@[e_spec.outputs@[t]@] == output_signatures@[t].unwrap() by {
                    if t < k {
                        assert(e_spec.output_views().no_duplicates());
                        assert(e_spec.output_views()[t] == e_spec.outputs@[t]@);
                        assert(e_spec.output_views()[k as int] == e_spec.outputs@[k as int]@);
                        assert(e_spec.outputs@[t]@ != e_spec.outputs@[k as int]@);
                    }
                }
            }
            k = k + 1;
        }
        proof {
            assert(e_spec.outputs@.take(n_out as int) =~= e_spec.outputs@);
        }
        let cmd_hash = match &self.configuration.edges[edge].command {
            Option::Some(c) => command_hash(c.as_str()),
            Option::None => 0,
        };
        let ghost db0 = self.database@;
        let mut k2: usize = 0;
        while k2 < n_out
            invariant
                self.configuration.wf(),
                self.database.wf(),
                edge < self.configuration.edges@.len(),
                e_spec == self.configuration.edges@[edge as int],
                e_spec.command is Some,
                cmd_hash == command_hash_spec(e_spec.command.unwrap()@),
                n_out == e_spec.outputs@.len(),
                k2 <= n_out,
                self.configuration == old(self).configuration,
                self.status == old(self).status,
                self.running == old(self).running,
                self.failed == old(self).failed,
                self.job_limit == old(self).job_limit,
                self.options == old(self).options,
                files0 == old(self).files@,
                output_signatures@.len() == n_out,
                forall|t: int|
                    0 <= t < n_out ==> self.files@.contains_key(
                        (#[trigger] e_spec.outputs@[t])@,
                    ) && self.files@[e_spec.outputs@[t]@] == output_signatures@[t].unwrap(),
                forall|p: Seq<char>|
                    !(#[trigger] path_views(e_spec.outputs@).contains(p))
                        ==> (self.files@.contains_key(p) == files0.contains_key(p)
                        && (files0.contains_key(p) ==> self.files@[p] == files0[p])),
                db0 == old(self).database@,
                forall|t: int|
                    0 <= t < k2 ==> self.database@.contains_key(
                        (#[trigger] e_spec.outputs@[t])@,
                    ) && fresh_record(e_spec, self.database@[e_spec.outputs@[t]@], self.files@),
                forall|p: Seq<char>|
                    !(#[trigger] path_views(e_spec.outputs@.take(k2 as int)).contains(p))
                        ==> (self.database@.contains_key(p) == db0.contains_key(p)
                        && (db0.contains_key(p) ==> self.database@[p] == db0[p])),
            decreases n_out - k2,
        {
            let sigs = collect_signatures(&self.configuration.edges[edge], &self.files);
            let rec = DatabaseRecord { command_hash: cmd_hash, input_signatures: sigs };
            let path = self.configuration.edges[edge].outputs[k2].clone();
            let ghost pre_db = self.database@;
            self.database.record(path, rec);
            proof {
                assert(self.database@ == pre_db.insert(e_spec.outputs@[k2 as int]@, rec@));
                assert(fresh_record(e_spec, rec@, self.files@));
                assert(e_spec.outputs@.take(k2 + 1).drop_last() =~= e_spec.outputs@.take(
                    k2 as int,
                ));
                assert forall|p: Seq<char>|
                    !(#[trigger] path_views(e_spec.outputs@.take(k2 + 1)).contains(p)) implies (
                self.database@.contains_key(p) == db0.contains_key(p) && (db0.contains_key(p)
                    ==> self.database@[p] == db0[p])) by {
                    assert(forall|t: int|
                        0 <= t < k2 + 1 ==> path_views(e_spec.outputs@.take(k2 + 1))[t]
                            == (#[trigger] e_spec.outputs@.take(k2 + 1)[t])@);
                    assert(e_spec.outputs@.take(k2 + 1)[k2 as int] == e_spec.outputs@[k2 as int]);
                    assert(path_views(e_spec.outputs@.take(k2 + 1))[k2 as int]
                        == e_spec.outputs@[k2 as int]@);
                    assert(p != e_spec.outputs@[k2 as int]@);
                    assert(!path_views(e_spec.outputs@.take(k2 as int)).contains(p)) by {
                        if path_views(e_spec.outputs@.take(k2 as int)).contains(p) {
                            let t = choose|t: int|
                                0 <= t < k2 && path_views(e_spec.outputs@.take(k2 as int))[t]
                                    == p;
                            assert(path_views(e_spec.outputs@.take(k2 + 1))[t] == p);
                        }
                    }
                }
                assert forall|t: int|
                    0 <= t < k2 + 1 implies self.database@.contains_key(
                    (#[trigger] e_spec.outputs@[t])@,
                ) && fresh_record(e_spec, self.database@[e_spec.outputs@[t]@], self.files@) by {
                    if t < k2 {
                        assert(e_spec.output_views().no_duplicates());
                        assert(e_spec.output_views()[t] == e_spec.outputs@[t]@);
                        assert(e_spec.output_views()[k2 as int] == e_spec.outputs@[k2 as int]@);
                        assert(e_spec.outputs@[t]@ != e_spec.outputs@[k2 as int]@);
                    }
                }
            }
            k2 = k2 + 1;
        }
        proof {
            assert(e_spec.outputs@.take(n_out as int) =~= e_spec.outputs@);
            lemma_count_running_update(self.status@, edge as int, EdgeStatus::Done);
        }
        self.status.set(edge, EdgeStatus::Done);
        self.running = self.running - 1;
        proof {
            let c = self.configuration;
            let touched = path_views(e_spec.outputs@);
            assert(forall|j: int|
                0 <= j < old(self).status@.len() && ((#[trigger] old(self).status@[j]) is Done)
                    ==> self.status@[j] is Done);
            assert forall|k: int|
                0 <= k < self.status@.len() && (((#[trigger] self.status@[k]) is Running)
                    || self.status@[k] is Done) implies self.edge_ready(k) by {
                if k == edge as int {
                    assert(old(self).edge_ready(k));
                } else {
                    assert(old(self).status@[k] == self.status@[k]);
                    assert(old(self).edge_ready(k));
                }
            }
            assert forall|k: int|
                0 <= k < self.status@.len() && ((#[trigger] self.status@[k]) is Done)
                    && c.edges@[k].command is Some && inputs_present(
                    c.edges@[k],
                    self.files@,
                ) implies edge_clean(c.edges@[k], self.database@, self.files@) by {
                if k == edge as int {
                    lemma_fresh_record_clean(e_spec, self.database@, self.files@);
                } else {
                    assert(old(self).status@[k] is Done);
                    let ck = c.edges@[k];
                    assert forall|t: int|
                        0 <= t < ck.outputs@.len() implies !touched.contains(
                        (#[trigger] ck.outputs@[t])@,
                    ) by {
                        if touched.contains(ck.outputs@[t]@) {
                            let x = choose|x: int|
                                0 <= x < touched.len() && touched[x] == ck.outputs@[t]@;
                            assert(e_spec.output_views()[x] == e_spec.outputs@[x]@);
                            assert(c.edge_produces(edge as int, ck.outputs@[t]@));
                            assert(ck.output_views()[t] == ck.outputs@[t]@);
                            assert(c.edge_produces(k, ck.outputs@[t]@));
                        }
                    }
                    assert forall|t: int|
                        0 <= t < ck.inputs@.len() implies !touched.contains(
                        (#[trigger] ck.inputs@[t])@,
                    ) by {
                        if touched.contains(ck.inputs@[t]@) {
                            let x = choose|x: int|
                                0 <= x < touched.len() && touched[x] == ck.inputs@[t]@;
                            assert(e_spec.output_views()[x] == e_spec.outputs@[x]@);
                            assert(c.edge_produces(edge as int, ck.inputs@[t]@));
                            assert(old(self).edge_ready(k));
                            assert(paths_done(c, old(self).status@, ck.inputs@));
                            assert(old(self).status@[edge as int] is Done);
                        }
                    }
                    assert forall|t: int|
                        0 <= t < ck.implicit_inputs@.len() implies !touched.contains(
                        (#[trigger] ck.implicit_inputs@[t])@,
                    ) by {
                        if touched.contains(ck.implicit_inputs@[t]@) {
                            let x = choose|x: int|
                                0 <= x < touched.len() && touched[x] == ck.implicit_inputs@[
                                t]@;
                            assert(e_spec.output_views()[x] == e_spec.outputs@[x]@);
                            assert(c.edge_produces(edge as int, ck.implicit_inputs@[t]@));
                            assert(old(self).edge_ready(k));
                            assert(paths_done(c, old(self).status@, ck.implicit_inputs@));
                            assert(old(self).status@[edge as int] is Done);
                        }
                    }
                    lemma_clean_preserved(
                        c,
                        k,
                        touched,
                        old(self).database@,
                        self.database@,
                        old(self).files@,
                        self.files@,
                    );
                    assert(inputs_present(ck, old(self).files@));
                    assert(edge_clean(ck, old(self).database@, old(self).files@));
                }
            }
            assert(self.run_invariant());
        }
    }
}

} // verus!
use vstd::prelude::*;

verus! {

/// The exact condition under which the scheduler may dispatch edge `i`:
/// no failure observed, a free slot under the job limit, every producer
/// finished, and the edge found stale.
pub open spec fn dispatchable(s: BuildState, i: int) -> bool {
    &&& !s.failed
    &&& s.running < s.job_limit
    &&& 0 <= i < s.status@.len()
    &&& s.status@[i] is Waiting
    &&& s.edge_ready(i)
    &&& s.configuration.edges@[i].command is Some
    &&& !edge_clean(s.configuration.edges@[i], s.database@, s.files@)
}

/// Determinism of staleness: an edge whose record still matches its
/// resolved command, whose inputs all carry their recorded signatures
/// and whose outputs all exist is clean, and a clean edge is never
/// dispatchable — re-running it yields no command.
pub proof fn lemma_staleness_determinism(s: BuildState, i: int)
    requires
        0 <= i < s.configuration.edges@.len(),
        edge_clean(s.configuration.edges@[i], s.database@, s.files@),
    ensures
        !dispatchable(s, i),
{
}

/// Idempotence: when every scheduled edge is clean — as after a
/// successful run over an unchanged world — no edge is dispatchable at
/// all, so the run performs no work; and since only completions write
/// the database, it is left identical.
pub proof fn lemma_idempotence(s: BuildState)
    requires
        s.status@.len() == s.configuration.edges@.len(),
        forall|i: int|
            0 <= i < s.status@.len() && !((#[trigger] s.status@[i]) is Excluded)
                ==> edge_clean(s.configuration.edges@[i], s.database@, s.files@),
    ensures
        forall|i: int| !dispatchable(s, i),
{
    assert forall|i: int| !dispatchable(s, i) by {
        if 0 <= i < s.status@.len() {
            if s.status@[i] is Waiting {
                assert(!(s.status@[i] is Excluded));
            }
        }
    }
}

/// Concurrency bound: in every well-formed state, no more than
/// `job_limit` commands are in the running state, and a dispatch is
/// possible only strictly below the limit.
pub proof fn lemma_concurrency_bound(s: BuildState, i: int)
    requires
        s.wf(),
    ensures
        s.running <= s.job_limit,
        dispatchable(s, i) ==> s.running < s.job_limit,
{
}

/// First-failure semantics: once a failure is observed no edge is
/// dispatchable, so the frontier never expands; completions of edges
/// already in flight are still accepted and recorded.
pub proof fn lemma_no_dispatch_after_failure(s: BuildState, i: int)
    requires
        s.failed,
    ensures
        !dispatchable(s, i),
{
}

} // verus!
use vstd::prelude::*;

verus! {

/// Every explicit and implicit input of the edge exists.
pub open spec fn inputs_present(edge: BuildEdge, files: Map<Seq<char>, u64>) -> bool {
    &&& forall|k: int|
        0 <= k < edge.inputs@.len() ==> files.contains_key((#[trigger] edge.inputs@[k])@)
    &&& forall|k: int|
        0 <= k < edge.implicit_inputs@.len() ==> files.contains_key(
            (#[trigger] edge.implicit_inputs@[k])@,
        )
}

impl BuildState {
    /// Facts that hold throughout a run and carry the idempotence
    /// argument: every running or finished edge became so only once its
    /// producers had finished, and every finished command edge whose
    /// inputs all exist is clean against the current database and
    /// signatures.
    pub open spec fn run_invariant(self) -> bool {
        &&& forall|i: int|
            0 <= i < self.status@.len() && ((#[trigger] self.status@[i]) is Running)
                ==> self.edge_ready(i)
        &&& forall|i: int|
            0 <= i < self.status@.len() && ((#[trigger] self.status@[i]) is Done)
                ==> self.edge_ready(i)
        &&& forall|i: int|
            0 <= i < self.status@.len() && ((#[trigger] self.status@[i]) is Done)
                && self.configuration.edges@[i].command is Some && inputs_present(
                self.configuration.edges@[i],
                self.files@,
            ) ==> edge_clean(self.configuration.edges@[i], self.database@, self.files@)
    }
}

/// Idempotence across runs: once a run has finished successfully, every
/// scheduled command edge whose inputs all exist is clean against the
/// final database and file signatures; with all scheduled edges clean,
/// no edge is dispatchable, so a second run over that database with
/// unchanged signatures performs no work, and `next_action` leaves the
/// database identical.
pub proof fn lemma_successful_run_idempotent(s: BuildState)
    requires
        s.wf(),
        s.run_invariant(),
        !s.failed,
        forall|i: int|
            0 <= i < s.status@.len() ==> ((#[trigger] s.status@[i]) is Done || s.status@[i]
                is Excluded),
        forall|i: int|
            0 <= i < s.status@.len() && !((#[trigger] s.status@[i]) is Excluded)
                ==> inputs_present(s.configuration.edges@[i], s.files@),
    ensures
        forall|i: int|
            0 <= i < s.status@.len() && !((#[trigger] s.status@[i]) is Excluded)
                ==> edge_clean(s.configuration.edges@[i], s.database@, s.files@),
        forall|i: int| !dispatchable(s, i),
{
    assert forall|i: int|
        0 <= i < s.status@.len() && !((#[trigger] s.status@[i]) is Excluded)
            implies edge_clean(s.configuration.edges@[i], s.database@, s.files@) by {
        if s.configuration.edges@[i].command is Some {
            assert(s.status@[i] is Done);
        }
    }
    lemma_idempotence(s);
}

} // verus!
use vstd::prelude::*;

verus! {

/// A path outside the completing edge's outputs keeps its file and
/// database standing, so a finished edge that shares no path with the
/// completing one stays clean.
proof fn lemma_clean_preserved(
    c: Configuration,
    k: int,
    touched: Seq<Seq<char>>,
    db0: Map<Seq<char>, RecordModel>,
    db1: Map<Seq<char>, RecordModel>,
    f0: Map<Seq<char>, u64>,
    f1: Map<Seq<char>, u64>,
)
    requires
        0 <= k < c.edges@.len(),
        forall|p: Seq<char>|
            !(#[trigger] touched.contains(p)) ==> (f1.contains_key(p) == f0.contains_key(p)
                && (f0.contains_key(p) ==> f1[p] == f0[p])),
        forall|p: Seq<char>|
            !(#[trigger] touched.contains(p)) ==> (db1.contains_key(p) == db0.contains_key(p)
                && (db0.contains_key(p) ==> db1[p] == db0[p])),
        forall|t: int|
            0 <= t < c.edges@[k].inputs@.len() ==> !touched.contains(
                (#[trigger] c.edges@[k].inputs@[t])@,
            ),
        forall|t: int|
            0 <= t < c.edges@[k].implicit_inputs@.len() ==> !touched.contains(
                (#[trigger] c.edges@[k].implicit_inputs@[t])@,
            ),
        forall|t: int|
            0 <= t < c.edges@[k].outputs@.len() ==> !touched.contains(
                (#[trigger] c.edges@[k].outputs@[t])@,
            ),
    ensures
        inputs_present(c.edges@[k], f1) ==> inputs_present(c.edges@[k], f0),
        edge_clean(c.edges@[k], db0, f0) ==> edge_clean(c.edges@[k], db1, f1),
{
    let e = c.edges@[k];
    if edge_clean(e, db0, f0) {
        match e.command {
            Option::None => {},
            Option::Some(cmd) => {
                assert forall|o: int| 0 <= o < e.outputs@.len() implies {
                    let p = (#[trigger] e.outputs@[o])@;
                    &&& f1.contains_key(p)
                    &&& db1.contains_key(p)
                    &&& db1[p].command_hash == command_hash_spec(cmd@)
                    &&& inputs_match(e.inputs@, db1[p], f1)
                    &&& inputs_match(e.implicit_inputs@, db1[p], f1)
                } by {
                    let p = e.outputs@[o]@;
                    assert(!touched.contains(p));
                    assert(db1[p] == db0[p]);
                    assert forall|t: int| 0 <= t < e.inputs@.len() implies {
                        let q = (#[trigger] e.inputs@[t])@;
                        f1.contains_key(q) && db1[p].input_signatures.contains_key(q)
                            && db1[p].input_signatures[q] == f1[q]
                    } by {
                        assert(!touched.contains(e.inputs@[t]@));
                    }
                    assert forall|t: int| 0 <= t < e.implicit_inputs@.len() implies {
                        let q = (#[trigger] e.implicit_inputs@[t])@;
                        f1.contains_key(q) && db1[p].input_signatures.contains_key(q)
                            && db1[p].input_signatures[q] == f1[q]
                    } by {
                        assert(!touched.contains(e.implicit_inputs@[t]@));
                    }
                }
            },
        }
    }
}

} // verus!
use vstd::prelude::*;

verus! {

/// Marking a ready edge Running or Done — with the database, the file
/// signatures and every other status unchanged — keeps the run
/// invariant: readiness is monotone in the set of finished edges, and a
/// newly finished edge was clean or phony when it was marked.
proof fn lemma_step_preserves_run_invariant(pre: BuildState, post: BuildState, i: int)
    requires
        pre.wf(),
        pre.run_invariant(),
        0 <= i < pre.status@.len(),
        pre.status@[i] is Waiting,
        pre.edge_ready(i),
        post.configuration == pre.configuration,
        post.database == pre.database,
        post.files == pre.files,
        post.status@ == pre.status@.update(
            i,
            if post.status@[i] is Running {
                EdgeStatus::Running
            } else {
                EdgeStatus::Done
            },
        ),
        post.status@[i] is Running || post.status@[i] is Done,
        post.status@[i] is Done ==> (pre.configuration.edges@[i].command is None || edge_clean(
            pre.configuration.edges@[i],
            pre.database@,
            pre.files@,
        )),
    ensures
        post.run_invariant(),
{
    assert(post.status@.len() == pre.status@.len());
    assert(forall|j: int|
        0 <= j < pre.status@.len() && ((#[trigger] pre.status@[j]) is Done) ==> post.status@[j]
            is Done);
    assert forall|k: int|
        0 <= k < post.status@.len() && (((#[trigger] post.status@[k]) is Running)
            || post.status@[k] is Done) implies post.edge_ready(k) by {
        if k == i {
            assert(pre.edge_ready(i));
        } else {
            assert(pre.status@[k] == post.status@[k]);
            assert(pre.edge_ready(k));
        }
        assert(paths_done(
            post.configuration,
            post.status@,
            post.configuration.edges@[k].inputs@,
        ));
        assert(paths_done(
            post.configuration,
            post.status@,
            post.configuration.edges@[k].implicit_inputs@,
        ));
        assert(paths_done(
            post.configuration,
            post.status@,
            post.configuration.edges@[k].order_only_inputs@,
        ));
    }
    assert forall|k: int|
        0 <= k < post.status@.len() && ((#[trigger] post.status@[k]) is Done)
            && post.configuration.edges@[k].command is Some && inputs_present(
            post.configuration.edges@[k],
            post.files@,
        ) implies edge_clean(
        post.configuration.edges@[k],
        post.database@,
        post.files@,
    ) by {
        if k != i {
            assert(pre.status@[k] is Done);
        }
    }
}

} // verus!
