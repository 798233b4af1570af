use vstd::prelude::*;

verus! {

/// The mathematical model of one database record: the fingerprint of the
/// command that produced the output, and the signature each staleness
/// input had at the last successful build.
pub struct RecordModel {
    pub command_hash: u64,
    pub input_signatures: Map<Seq<char>, u64>,
}

/// The mapping behind a (path, signature) list; a later entry wins.
pub open spec fn sig_map(s: Seq<(String, u64)>) -> Map<Seq<char>, u64>
    decreases s.len(),
{
    if s.len() == 0 {
        Map::empty()
    } else {
        sig_map(s.drop_last()).insert(s.last().0@, s.last().1)
    }
}

/// The mapping behind a (path, record) list; a later entry wins.
pub open spec fn records_map(s: Seq<(String, DatabaseRecord)>) -> Map<Seq<char>, RecordModel>
    decreases s.len(),
{
    if s.len() == 0 {
        Map::empty()
    } else {
        records_map(s.drop_last()).insert(s.last().0@, s.last().1@)
    }
}

/// One persisted entry, keyed by output path: written only after the
/// producing command succeeded, and consulted to decide staleness.
#[derive(Clone, Debug)]
pub struct DatabaseRecord {
    pub command_hash: u64,
    pub input_signatures: Vec<(String, u64)>,
}

impl View for DatabaseRecord {
    type V = RecordModel;

    open spec fn view(&self) -> RecordModel {
        RecordModel {
            command_hash: self.command_hash,
            input_signatures: sig_map(self.input_signatures@),
        }
    }
}

/// The incremental build database: one record per output path.  Viewed
/// as a map from output path to record model.
#[derive(Clone, Debug)]
pub struct Database {
    pub records: Vec<(String, DatabaseRecord)>,
}

impl View for Database {
    type V = Map<Seq<char>, RecordModel>;

    open spec fn view(&self) -> Map<Seq<char>, RecordModel> {
        records_map(self.records@)
    }
}

proof fn lemma_sig_map_key(s: Seq<(String, u64)>, k: Seq<char>)
    ensures
        sig_map(s).contains_key(k) <==> exists|i: int| 0 <= i < s.len() && s[i].0@ == k,
    decreases s.len(),
{
    if s.len() > 0 {
        lemma_sig_map_key(s.drop_last(), k);
        if s.last().0@ == k {
            assert(s[s.len() - 1].0@ == k);
        } else {
            if exists|i: int| 0 <= i < s.len() && s[i].0@ == k {
                let i = choose|i: int| 0 <= i < s.len() && s[i].0@ == k;
                assert(s.drop_last()[i].0@ == k);
            }
        }
    }
}

proof fn lemma_sig_map_last(s: Seq<(String, u64)>, i: int)
    requires
        0 <= i < s.len(),
        forall|j: int| i < j < s.len() ==> s[j].0@ != s[i].0@,
    ensures
        sig_map(s).contains_key(s[i].0@),
        sig_map(s)[s[i].0@] == s[i].1,
    decreases s.len(),
{
    if i == s.len() - 1 {
    } else {
        assert(s.drop_last()[i] == s[i]);
        lemma_sig_map_last(s.drop_last(), i);
    }
}

proof fn lemma_records_map_key(s: Seq<(String, DatabaseRecord)>, k: Seq<char>)
    ensures
        records_map(s).contains_key(k) <==> exists|i: int| 0 <= i < s.len() && s[i].0@ == k,
    decreases s.len(),
{
    if s.len() > 0 {
        lemma_records_map_key(s.drop_last(), k);
        if s.last().0@ == k {
            assert(s[s.len() - 1].0@ == k);
        } else {
            if exists|i: int| 0 <= i < s.len() && s[i].0@ == k {
                let i = choose|i: int| 0 <= i < s.len() && s[i].0@ == k;
                assert(s.drop_last()[i].0@ == k);
            }
        }
    }
}

proof fn lemma_records_map_get(s: Seq<(String, DatabaseRecord)>, i: int)
    requires
        0 <= i < s.len(),
        forall|j: int| i < j < s.len() ==> s[j].0@ != s[i].0@,
    ensures
        records_map(s).contains_key(s[i].0@),
        records_map(s)[s[i].0@] == s[i].1@,
    decreases s.len(),
{
    if i == s.len() - 1 {
    } else {
        assert(s.drop_last()[i] == s[i]);
        lemma_records_map_get(s.drop_last(), i);
    }
}

proof fn lemma_records_map_remove(s: Seq<(String, DatabaseRecord)>, i: int)
    requires
        0 <= i < s.len(),
        forall|a: int, b: int| 0 <= a < b < s.len() ==> s[a].0@ != s[b].0@,
    ensures
        records_map(s.remove(i)) =~= records_map(s).remove(s[i].0@),
    decreases s.len(),
{
    if i == s.len() - 1 {
        assert(s.remove(i) =~= s.drop_last());
        lemma_records_map_key(s.drop_last(), s[i].0@);
        assert(!records_map(s.drop_last()).contains_key(s[i].0@));
    } else {
        assert(s.remove(i).drop_last() =~= s.drop_last().remove(i));
        assert(s.remove(i).last() == s.last());
        assert(s.drop_last()[i] == s[i]);
        lemma_records_map_remove(s.drop_last(), i);
    }
}

impl Database {
    /// No two entries share an output path.
    pub open spec fn wf(self) -> bool {
        forall|a: int, b: int|
            0 <= a < b < self.records@.len() ==> self.records@[a].0@ != self.records@[b].0@
    }

    /// An empty database: nothing was ever built successfully.
    pub fn new() -> (r: Database)
        ensures
            r.wf(),
            r@ == Map::<Seq<char>, RecordModel>::empty(),
    {
        let r = Database { records: Vec::new() };
        proof {
            assert(r@ =~= Map::<Seq<char>, RecordModel>::empty());
        }
        r
    }

    fn index_of(&self, output: &String) -> (r: Option<usize>)
        ensures
            match r {
                Some(i) => i < self.records@.len() && self.records@[i as int].0@ == output@,
                None => forall|i: int|
                    0 <= i < self.records@.len() ==> self.records@[i].0@ != output@,
            },
    {
        let mut i: usize = 0;
        while i < self.records.len()
            invariant
                i <= self.records@.len(),
                forall|k: int| 0 <= k < i ==> self.records@[k].0@ != output@,
            decreases self.records@.len() - i,
        {
            if self.records[i].0 == *output {
                return Some(i);
            }
            i = i + 1;
        }
        None
    }

    /// Read the record for an output; absence means "never successfully
    /// built, or database reset", which callers treat as dirty.
    pub fn lookup(&self, output: &String) -> (r: Option<&DatabaseRecord>)
        requires
            self.wf(),
        ensures
            match r {
                Some(rec) => self@.contains_key(output@) && rec@ == self@[output@],
                None => !self@.contains_key(output@),
            },
    {
        match self.index_of(output) {
            Some(i) => {
                proof {
                    lemma_records_map_get(self.records@, i as int);
                }
                Some(&self.records[i].1)
            },
            None => {
                proof {
                    lemma_records_map_key(self.records@, output@);
                }
                None
            },
        }
    }

    /// Drop the record for an output, if present.
    pub fn remove(&mut self, output: &String)
        requires
            old(self).wf(),
        ensures
            final(self).wf(),
            final(self)@ == old(self)@.remove(output@),
    {
        match self.index_of(output) {
            Some(i) => {
                proof {
                    lemma_records_map_remove(self.records@, i as int);
                }
                self.records.remove(i);
            },
            None => {
                proof {
                    lemma_records_map_key(self.records@, output@);
                    assert(old(self)@.remove(output@) =~= old(self)@);
                }
            },
        }
    }

    /// Upsert the record for an output after its command succeeded.
    pub fn record(&mut self, output: String, rec: DatabaseRecord)
        requires
            old(self).wf(),
        ensures
            final(self).wf(),
            final(self)@ == old(self)@.insert(output@, rec@),
    {
        let ghost old_map = self@;
        self.remove(&output);
        proof {
            lemma_records_map_key(self.records@, output@);
        }
        let ghost pre_push = self.records@;
        self.records.push((output, rec));
        proof {
            assert(self.records@.drop_last() =~= pre_push);
            assert(self@ == records_map(pre_push).insert(
                self.records@.last().0@,
                self.records@.last().1@,
            ));
            assert(self@ =~= old_map.insert(self.records@.last().0@, self.records@.last().1@));
        }
    }

    /// Every output path that has a record, in storage order.
    pub fn output_paths(&self) -> (r: Vec<String>)
        ensures
            r@.len() == self.records@.len(),
            forall|i: int| 0 <= i < r@.len() ==> r@[i]@ == self.records@[i].0@,
    {
        let mut r: Vec<String> = Vec::new();
        let mut i: usize = 0;
        while i < self.records.len()
            invariant
                i <= self.records@.len(),
                r@.len() == i,
                forall|k: int| 0 <= k < i ==> r@[k]@ == self.records@[k].0@,
            decreases self.records@.len() - i,
        {
            r.push(self.records[i].0.clone());
            i = i + 1;
        }
        r
    }

    /// A record exists exactly for the paths of `output_paths`.
    pub proof fn lemma_contains_key_entry(self, k: Seq<char>)
        ensures
            self@.contains_key(k) <==> exists|i: int|
                0 <= i < self.records@.len() && self.records@[i].0@ == k,
    {
        lemma_records_map_key(self.records@, k);
    }
}

/// The signature recorded for `path`, scanning from the newest entry, so
/// that the result matches the record's map model.
pub fn lookup_signature(sigs: &Vec<(String, u64)>, path: &String) -> (r: Option<u64>)
    ensures
        match r {
            Some(v) => sig_map(sigs@).contains_key(path@) && sig_map(sigs@)[path@] == v,
            None => !sig_map(sigs@).contains_key(path@),
        },
{
    let mut i: usize = sigs.len();
    while i > 0
        invariant
            i <= sigs@.len(),
            forall|j: int| i <= j < sigs@.len() ==> sigs@[j].0@ != path@,
        decreases i,
    {
        i = i - 1;
        if sigs[i].0 == *path {
            proof {
                lemma_sig_map_last(sigs@, i as int);
            }
            return Some(sigs[i].1);
        }
    }
    proof {
        lemma_sig_map_key(sigs@, path@);
    }
    None
}

} // verus!
