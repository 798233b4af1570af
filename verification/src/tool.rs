use crate::configuration::Configuration;
use crate::database::Database;
use vstd::prelude::*;

verus! {

/// Maintenance pass over the database: remove every record whose output
/// is no longer declared by the current configuration, and retain every
/// record whose output still is.  Skipping it never affects correctness
/// of the next build.
pub fn clean_dead(configuration: &Configuration, database: &mut Database)
    requires
        old(database).wf(),
    ensures
        final(database).wf(),
        final(database)@ == old(database)@.restrict(configuration.output_set()),
{
    let ghost old_map = database@;
    let keys = database.output_paths();
    proof {
        assert(forall|a: int, b: int|
            0 <= a < b < keys@.len() ==> keys@[a]@ != keys@[b]@);
        assert(forall|k: Seq<char>| #[trigger] old_map.contains_key(k) ==> exists|j: int|
            0 <= j < keys@.len() && keys@[j]@ == k) by {
            assert forall|k: Seq<char>| #[trigger] old_map.contains_key(k) implies exists|j: int|
                0 <= j < keys@.len() && keys@[j]@ == k by {
                database.lemma_contains_key_entry(k);
                let j = choose|j: int|
                    0 <= j < database.records@.len() && database.records@[j].0@ == k;
                assert(keys@[j]@ == k);
            }
        }
    }
    let mut i: usize = 0;
    while i < keys.len()
        invariant
            i <= keys@.len(),
            database.wf(),
            forall|a: int, b: int| 0 <= a < b < keys@.len() ==> keys@[a]@ != keys@[b]@,
            forall|k: Seq<char>|
                #[trigger] database@.contains_key(k) <==> (old_map.contains_key(k)
                    && (configuration.output_set().contains(k) || exists|j: int|
                        i <= j < keys@.len() && keys@[j]@ == k)),
            forall|k: Seq<char>|
                #[trigger] database@.contains_key(k) ==> database@[k] == old_map[k],
        decreases keys@.len() - i,
    {
        let ghost prev = database@;
        let produced = configuration.find_producer(&keys[i]);
        if produced.is_none() {
            proof {
                assert(!configuration.output_set().contains(keys@[i as int]@));
            }
            database.remove(&keys[i]);
        } else {
            proof {
                let e = produced.unwrap() as int;
                assert(configuration.edge_produces(e, keys@[i as int]@));
                assert(configuration.output_set().contains(keys@[i as int]@));
            }
        }
        proof {
            assert forall|k: Seq<char>|
                #[trigger] database@.contains_key(k) <==> (old_map.contains_key(k)
                    && (configuration.output_set().contains(k) || exists|j: int|
                        i + 1 <= j < keys@.len() && keys@[j]@ == k)) by {
                if k != keys@[i as int]@ {
                    assert(database@.contains_key(k) == prev.contains_key(k));
                    if exists|j: int| i <= j < keys@.len() && keys@[j]@ == k {
                        let j = choose|j: int| i <= j < keys@.len() && keys@[j]@ == k;
                        assert(j != i);
                        assert(i + 1 <= j < keys@.len() && keys@[j]@ == k);
                    }
                }
            }
        }
        i = i + 1;
    }
    proof {
        assert(database@ =~= old_map.restrict(configuration.output_set()));
    }
}

} // verus!
