use crate::error::ApplicationError;
use vstd::prelude::*;

verus! {

/// For each loaded module (keyed by canonical path): the include and
/// submodule references it makes, each as (literal text, resolved
/// canonical path).
pub type ModuleDependencyMap = Vec<(String, Vec<(String, String)>)>;

/// Entry `i` references the module of entry `j`.
pub open spec fn depends_on(m: Seq<(String, Vec<(String, String)>)>, i: int, j: int) -> bool {
    &&& 0 <= i < m.len()
    &&& 0 <= j < m.len()
    &&& exists|k: int| 0 <= k < m[i].1@.len() && m[i].1@[k].1@ == m[j].0@
}

/// A closed walk through the reference graph: each entry references the
/// next, and the walk ends where it starts.
pub open spec fn is_cycle(m: Seq<(String, Vec<(String, String)>)>, p: Seq<int>) -> bool {
    &&& p.len() >= 2
    &&& p[0] == p[p.len() - 1]
    &&& forall|t: int| 0 <= t < p.len() - 1 ==> depends_on(m, #[trigger] p[t], p[t + 1])
}

/// No module is reachable from itself.
pub open spec fn acyclic(m: Seq<(String, Vec<(String, String)>)>) -> bool {
    forall|p: Seq<int>| !is_cycle(m, p)
}

/// `num` orders the modules so that every reference points to an
/// earlier number.
pub open spec fn is_topological_numbering(
    m: Seq<(String, Vec<(String, String)>)>,
    num: Seq<int>,
) -> bool {
    &&& num.len() == m.len()
    &&& forall|i: int, j: int| #[trigger] depends_on(m, i, j) ==> num[j] < num[i]
}

proof fn lemma_walk_descends(
    m: Seq<(String, Vec<(String, String)>)>,
    num: Seq<int>,
    p: Seq<int>,
    t: int,
)
    requires
        is_topological_numbering(m, num),
        forall|u: int| 0 <= u < p.len() - 1 ==> depends_on(m, #[trigger] p[u], p[u + 1]),
        0 <= t < p.len(),
        p.len() >= 1,
    ensures
        num[p[t]] <= num[p[0]] - t,
        0 <= p[t] < m.len() || t == p.len() - 1 && t == 0,
    decreases t,
{
    if t > 0 {
        lemma_walk_descends(m, num, p, t - 1);
        assert(depends_on(m, p[t - 1], p[t]));
    }
}

/// A topological numbering rules out every cycle: along a closed walk the
/// numbers would strictly descend and still return to their start.
pub proof fn lemma_numbering_rules_out_cycles(
    m: Seq<(String, Vec<(String, String)>)>,
    num: Seq<int>,
    p: Seq<int>,
)
    requires
        is_topological_numbering(m, num),
    ensures
        !is_cycle(m, p),
{
    if is_cycle(m, p) {
        lemma_walk_descends(m, num, p, p.len() - 1);
        assert(num[p[p.len() - 1]] <= num[p[0]] - (p.len() - 1));
        assert(p[0] == p[p.len() - 1]);
    }
}

spec fn count_true(s: Seq<bool>) -> int
    decreases s.len(),
{
    if s.len() == 0 {
        0
    } else {
        count_true(s.drop_last()) + if s.last() {
            1int
        } else {
            0int
        }
    }
}

proof fn lemma_count_true_bounds(s: Seq<bool>)
    ensures
        0 <= count_true(s) <= s.len(),
    decreases s.len(),
{
    if s.len() > 0 {
        lemma_count_true_bounds(s.drop_last());
    }
}

proof fn lemma_count_true_update(s: Seq<bool>, i: int)
    requires
        0 <= i < s.len(),
        !s[i],
    ensures
        count_true(s.update(i, true)) == count_true(s) + 1,
    decreases s.len(),
{
    if i == s.len() - 1 {
        assert(s.update(i, true).drop_last() =~= s.drop_last());
    } else {
        assert(s.update(i, true).drop_last() =~= s.drop_last().update(i, true));
        lemma_count_true_update(s.drop_last(), i);
    }
}

proof fn lemma_count_true_all(s: Seq<bool>)
    requires
        count_true(s) == s.len(),
    ensures
        forall|i: int| 0 <= i < s.len() ==> s[i],
    decreases s.len(),
{
    if s.len() > 0 {
        lemma_count_true_bounds(s.drop_last());
        lemma_count_true_all(s.drop_last());
        assert(forall|i: int| 0 <= i < s.len() - 1 ==> s[i] == s.drop_last()[i]);
    }
}

fn deps_marked(dependencies: &ModuleDependencyMap, marked: &Vec<bool>, i: usize) -> (r: bool)
    requires
        marked@.len() == dependencies@.len(),
        i < dependencies@.len(),
    ensures
        r == forall|j: int| #[trigger] depends_on(dependencies@, i as int, j) ==> marked@[j],
{
    let ghost m = dependencies@;
    let deps = &dependencies[i].1;
    let n = dependencies.len();
    let mut k: usize = 0;
    while k < deps.len()
        invariant
            dependencies@ == m,
            deps@ == m[i as int].1@,
            marked@.len() == m.len(),
            i < m.len(),
            n == m.len(),
            k <= deps@.len(),
            forall|j: int, kk: int|
                #![trigger deps@[kk].1@, m[j].0@]
                0 <= j < m.len() && 0 <= kk < k && deps@[kk].1@ == m[j].0@ ==> marked@[j],
        decreases deps@.len() - k,
    {
        let mut j: usize = 0;
        while j < n
            invariant
                dependencies@ == m,
                deps@ == m[i as int].1@,
                marked@.len() == m.len(),
                i < m.len(),
                n == m.len(),
                k < deps@.len(),
                j <= n,
                forall|jj: int|
                    0 <= jj < j && #[trigger] m[jj].0@ == deps@[k as int].1@ ==> marked@[jj],
        decreases n - j,
        {
            if dependencies[j].0 == deps[k].1 && !marked[j] {
                proof {
                    assert(0 <= k < m[i as int].1@.len()
                        && m[i as int].1@[k as int].1@ == m[j as int].0@);
                    assert(depends_on(m, i as int, j as int));
                    assert(!marked@[j as int]);
                }
                return false;
            }
            j = j + 1;
        }
        k = k + 1;
    }
    proof {
        assert forall|j: int| #[trigger] depends_on(m, i as int, j) implies marked@[j] by {
            let kk = choose|kk: int|
                0 <= kk < m[i as int].1@.len() && m[i as int].1@[kk].1@ == m[j].0@;
            assert(deps@[kk].1@ == m[j].0@);
        }
    }
    true
}

fn find_ready(dependencies: &ModuleDependencyMap, marked: &Vec<bool>) -> (r: Option<usize>)
    requires
        marked@.len() == dependencies@.len(),
    ensures
        match r {
            Some(c) => c < dependencies@.len() && !marked@[c as int] && forall|j: int|
                #[trigger] depends_on(dependencies@, c as int, j) ==> marked@[j],
            None => forall|i: int|
                0 <= i < dependencies@.len() && !marked@[i] ==> exists|j: int|
                    #[trigger] depends_on(dependencies@, i, j) && !marked@[j],
        },
{
    let mut i: usize = 0;
    while i < dependencies.len()
        invariant
            marked@.len() == dependencies@.len(),
            i <= dependencies@.len(),
            forall|ii: int|
                0 <= ii < i && !marked@[ii] ==> exists|j: int|
                    #[trigger] depends_on(dependencies@, ii, j) && !marked@[j],
        decreases dependencies@.len() - i,
    {
        if !marked[i] && deps_marked(dependencies, marked, i) {
            return Some(i);
        }
        i = i + 1;
    }
    None
}

/// One marking step keeps the topological-numbering facts intact.
proof fn lemma_mark_step(
    m: Seq<(String, Vec<(String, String)>)>,
    marked: Seq<bool>,
    num: Seq<int>,
    counter: int,
    c: int,
)
    requires
        marked.len() == m.len(),
        num.len() == m.len(),
        0 <= c < m.len(),
        !marked[c],
        forall|i: int| 0 <= i < m.len() && #[trigger] marked[i] ==> num[i] < counter,
        forall|i: int, j: int|
            0 <= i < m.len() && marked[i] && #[trigger] depends_on(m, i, j)
                ==> marked[j] && num[j] < num[i],
        forall|j: int| #[trigger] depends_on(m, c, j) ==> marked[j],
    ensures
        forall|i: int|
            0 <= i < m.len() && #[trigger] marked.update(c, true)[i]
                ==> num.update(c, counter)[i] < counter + 1,
        forall|i: int, j: int|
            0 <= i < m.len() && marked.update(c, true)[i] && #[trigger] depends_on(m, i, j)
                ==> marked.update(c, true)[j] && num.update(c, counter)[j]
                    < num.update(c, counter)[i],
{
    let marked2 = marked.update(c, true);
    let num2 = num.update(c, counter);
    assert forall|i: int, j: int|
        0 <= i < m.len() && marked2[i] && #[trigger] depends_on(m, i, j)
            implies marked2[j] && num2[j] < num2[i] by {
        if i == c {
            assert(marked[j]);
            assert(num[j] < counter);
        } else {
            assert(marked[i]);
            assert(marked[j] && num[j] < num[i]);
            assert(j != c);
        }
    }
}

/// A completed numbering certifies acyclicity.
proof fn lemma_numbering_acyclic(m: Seq<(String, Vec<(String, String)>)>, num: Seq<int>)
    requires
        is_topological_numbering(m, num),
    ensures
        acyclic(m),
{
    assert forall|p: Seq<int>| !is_cycle(m, p) by {
        lemma_numbering_rules_out_cycles(m, num, p);
    }
}

/// When no unmarked module has all its references marked, the unmarked
/// modules form a stuck set.
proof fn lemma_min_blocked(marked: Seq<bool>, num: Seq<int>, n: int)
    requires
        marked.len() == num.len(),
        0 <= n <= marked.len(),
        exists|i: int| 0 <= i < n && !(#[trigger] marked[i]),
    ensures
        exists|i: int|
            (0 <= i < n && !(#[trigger] marked[i])) && forall|j: int|
                0 <= j < n && !(#[trigger] marked[j]) ==> num[i] <= num[j],
    decreases n,
{
    let last = n - 1;
    if exists|i: int| 0 <= i < n - 1 && !(#[trigger] marked[i]) {
        lemma_min_blocked(marked, num, n - 1);
        let i0 = choose|i: int|
            (0 <= i < n - 1 && !(#[trigger] marked[i])) && forall|j: int|
                0 <= j < n - 1 && !(#[trigger] marked[j]) ==> num[i] <= num[j];
        if !marked[last] && num[last] < num[i0] {
            assert(forall|j: int| 0 <= j < n && !(#[trigger] marked[j]) ==> num[last] <= num[j]);
        } else {
            assert(forall|j: int| 0 <= j < n && !(#[trigger] marked[j]) ==> num[i0] <= num[j]);
        }
    } else {
        assert(!marked[last]);
        assert(forall|j: int| 0 <= j < n && !(#[trigger] marked[j]) ==> j == last);
    }
}

/// While some module is unmarked and every unmarked module references an
/// unmarked module, no topological numbering can exist: the unmarked
/// module with the least number would still reference a smaller one.
proof fn lemma_blocked_not_numbering(
    m: Seq<(String, Vec<(String, String)>)>,
    marked: Seq<bool>,
    num: Seq<int>,
)
    requires
        marked.len() == m.len(),
        count_true(marked) < marked.len(),
        forall|i: int|
            0 <= i < m.len() && !marked[i] ==> exists|j: int|
                #[trigger] depends_on(m, i, j) && !marked[j],
    ensures
        !is_topological_numbering(m, num),
{
    if is_topological_numbering(m, num) {
        lemma_exists_false(marked);
        lemma_min_blocked(marked, num, marked.len() as int);
        let i = choose|i: int|
            (0 <= i < marked.len() && !(#[trigger] marked[i])) && forall|j: int|
                0 <= j < marked.len() && !(#[trigger] marked[j]) ==> num[i] <= num[j];
        let j = choose|j: int| #[trigger] depends_on(m, i, j) && !marked[j];
        assert(num[j] < num[i]);
        assert(num[i] <= num[j]);
    }
}

/// Check that the loaded module set contains no include/submodule cycle.
/// On success a topological load order exists and no module is reachable
/// from itself; on failure some set of modules blocks every load order.
pub fn validate(dependencies: &ModuleDependencyMap) -> (r: Result<(), ApplicationError>)
    ensures
        r.is_ok() ==> acyclic(dependencies@),
        r.is_err() ==> r == Result::<(), ApplicationError>::Err(
            ApplicationError::CircularModuleDependency,
        ) && forall|num: Seq<int>| !is_topological_numbering(dependencies@, num),
{
    let ghost m = dependencies@;
    let n = dependencies.len();
    let mut marked: Vec<bool> = Vec::new();
    while marked.len() < n
        invariant
            marked@.len() <= n,
            forall|i: int| 0 <= i < marked@.len() ==> !marked@[i],
        decreases n - marked@.len(),
    {
        marked.push(false);
    }
    let mut marked_count: usize = 0;
    let ghost mut num: Seq<int> = Seq::new(n as nat, |i: int| 0);
    let ghost mut counter: int = 0;
    proof {
        lemma_count_none(marked@);
    }
    loop
        invariant
            n == m.len(),
            dependencies@ == m,
            marked@.len() == n,
            num.len() == n,
            marked_count == count_true(marked@),
            marked_count <= n,
            forall|i: int| 0 <= i < n && #[trigger] marked@[i] ==> num[i] < counter,
            forall|i: int, j: int|
                0 <= i < n && marked@[i] && #[trigger] depends_on(m, i, j)
                    ==> marked@[j] && num[j] < num[i],
        decreases n - marked_count,
    {
        match find_ready(dependencies, &marked) {
            Some(c) => {
                proof {
                    lemma_count_true_update(marked@, c as int);
                    lemma_mark_step(m, marked@, num, counter, c as int);
                    num = num.update(c as int, counter);
                    counter = counter + 1;
                }
                proof {
                    lemma_count_true_bounds(marked@);
                    if marked_count == n {
                        lemma_count_true_all(marked@);
                    }
                }
                marked.set(c, true);
                marked_count = marked_count + 1;
                proof {
                    lemma_count_true_bounds(marked@);
                }
            },
            None => {
                if marked_count == n {
                    proof {
                        lemma_count_true_all(marked@);
                        assert(is_topological_numbering(m, num));
                        lemma_numbering_acyclic(m, num);
                    }
                    return Ok(());
                } else {
                    proof {
                        lemma_count_true_bounds(marked@);
                        assert forall|num2: Seq<int>|
                            !is_topological_numbering(m, num2) by {
                            lemma_blocked_not_numbering(m, marked@, num2);
                        }
                    }
                    return Err(ApplicationError::CircularModuleDependency);
                }
            },
        }
    }
}

proof fn lemma_count_none(s: Seq<bool>)
    requires
        forall|i: int| 0 <= i < s.len() ==> !s[i],
    ensures
        count_true(s) == 0,
    decreases s.len(),
{
    if s.len() > 0 {
        assert(forall|i: int| 0 <= i < s.drop_last().len() ==> !s.drop_last()[i]);
        lemma_count_none(s.drop_last());
    }
}

proof fn lemma_exists_false(s: Seq<bool>)
    requires
        count_true(s) < s.len(),
    ensures
        exists|i: int| 0 <= i < s.len() && !s[i],
    decreases s.len(),
{
    if s.len() > 0 {
        if s.last() {
            lemma_exists_false(s.drop_last());
            let i = choose|i: int| 0 <= i < s.drop_last().len() && !s.drop_last()[i];
            assert(!s[i]);
        } else {
            assert(!s[s.len() - 1]);
        }
    }
}

} // verus!
