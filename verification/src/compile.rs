use crate::ast::{Module, Rule, Statement};
use crate::configuration::{path_views, BuildEdge, Configuration};
use crate::error::ApplicationError;
use crate::module_dependency::ModuleDependencyMap;
use vstd::prelude::*;
use vstd::string::*;

verus! {

/// A character that may appear in a `$name` variable reference.
pub open spec fn is_name_char(c: char) -> bool {
    ||| 'a' <= c && c <= 'z'
    ||| 'A' <= c && c <= 'Z'
    ||| '0' <= c && c <= '9'
    ||| c == '_'
}

/// How many leading characters of `s` belong to a variable name.
pub open spec fn name_prefix_len(s: Seq<char>) -> int
    decreases s.len(),
{
    if s.len() == 0 {
        0
    } else if is_name_char(s[0]) {
        1 + name_prefix_len(s.skip(1))
    } else {
        0
    }
}

pub proof fn lemma_name_prefix_len_bounds(s: Seq<char>)
    ensures
        0 <= name_prefix_len(s) <= s.len(),
    decreases s.len(),
{
    if s.len() > 0 && is_name_char(s[0]) {
        lemma_name_prefix_len_bounds(s.skip(1));
    }
}

/// The binding environment behind a (name, value) list; a later binding
/// shadows an earlier one.
pub open spec fn env_map(s: Seq<(String, String)>) -> Map<Seq<char>, Seq<char>>
    decreases s.len(),
{
    if s.len() == 0 {
        Map::empty()
    } else {
        env_map(s.drop_last()).insert(s.last().0@, s.last().1@)
    }
}

proof fn lemma_env_map_key(s: Seq<(String, String)>, k: Seq<char>)
    ensures
        env_map(s).contains_key(k) <==> exists|i: int| 0 <= i < s.len() && s[i].0@ == k,
    decreases s.len(),
{
    if s.len() > 0 {
        lemma_env_map_key(s.drop_last(), k);
        if s.last().0@ == k {
            assert(s[s.len() - 1].0@ == k);
        } else {
            if exists|i: int| 0 <= i < s.len() && s[i].0@ == k {
                let i = choose|i: int| 0 <= i < s.len() && s[i].0@ == k;
                assert(s.drop_last()[i].0@ == k);
            }
        }
    }
}

proof fn lemma_env_map_last(s: Seq<(String, String)>, i: int)
    requires
        0 <= i < s.len(),
        forall|j: int| i < j < s.len() ==> s[j].0@ != s[i].0@,
    ensures
        env_map(s).contains_key(s[i].0@),
        env_map(s)[s[i].0@] == s[i].1@,
    decreases s.len(),
{
    if i == s.len() - 1 {
    } else {
        assert(s.drop_last()[i] == s[i]);
        lemma_env_map_last(s.drop_last(), i);
    }
}

/// The result of substituting every `$name` reference in `s` by its
/// bound value (or nothing, when the name is unbound).  A name is the
/// longest run of letters, digits and underscores after the `$`.
pub open spec fn expand_spec(s: Seq<char>, env: Map<Seq<char>, Seq<char>>) -> Seq<char>
    decreases s.len(),
    via expand_spec_dec
{
    if s.len() == 0 {
        s
    } else if s[0] == '$' {
        let nl = name_prefix_len(s.skip(1));
        let name = s.subrange(1, 1 + nl);
        let value: Seq<char> = if env.contains_key(name) {
            env[name]
        } else {
            Seq::empty()
        };
        value + expand_spec(s.skip(1 + nl), env)
    } else {
        seq![s[0]] + expand_spec(s.skip(1), env)
    }
}

#[via_fn]
proof fn expand_spec_dec(s: Seq<char>, env: Map<Seq<char>, Seq<char>>) {
    if s.len() > 0 {
        lemma_name_prefix_len_bounds(s.skip(1));
    }
}

fn is_name_char_exec(c: char) -> (r: bool)
    ensures
        r == is_name_char(c),
{
    ('a' <= c && c <= 'z') || ('A' <= c && c <= 'Z') || ('0' <= c && c <= '9') || c == '_'
}

fn name_prefix(s: &str) -> (r: usize)
    ensures
        r as int == name_prefix_len(s@),
        r <= s@.len(),
    decreases s@.len(),
{
    let n = s.unicode_len();
    if n == 0 {
        return 0;
    }
    let c = s.get_char(0);
    if is_name_char_exec(c) {
        let rest = s.substring_char(1, n);
        proof {
            assert(rest@ =~= s@.skip(1));
        }
        1 + name_prefix(rest)
    } else {
        0
    }
}

/// The value bound to `name`, with a later binding shadowing an earlier
/// one.
pub fn lookup_binding(env: &Vec<(String, String)>, name: &String) -> (r: Option<String>)
    ensures
        match r {
            Some(v) => env_map(env@).contains_key(name@) && v@ == env_map(env@)[name@],
            None => !env_map(env@).contains_key(name@),
        },
{
    let mut i: usize = env.len();
    while i > 0
        invariant
            i <= env@.len(),
            forall|j: int| i <= j < env@.len() ==> env@[j].0@ != name@,
        decreases i,
    {
        i = i - 1;
        if env[i].0 == *name {
            proof {
                lemma_env_map_last(env@, i as int);
            }
            return Some(env[i].1.clone());
        }
    }
    proof {
        lemma_env_map_key(env@, name@);
    }
    None
}

/// Substitute every `$name` reference in `s` by its bound value.
pub fn expand(s: &str, env: &Vec<(String, String)>) -> (r: String)
    ensures
        r@ == expand_spec(s@, env_map(env@)),
    decreases s@.len(),
{
    let n = s.unicode_len();
    if n == 0 {
        let out = String::new();
        proof {
            assert(out@ =~= expand_spec(s@, env_map(env@)));
        }
        return out;
    }
    let c = s.get_char(0);
    if c == '$' {
        let tail = s.substring_char(1, n);
        proof {
            assert(tail@ =~= s@.skip(1));
        }
        let nl = name_prefix(tail);
        let name_str = s.substring_char(1, 1 + nl);
        proof {
            assert(name_str@ =~= s@.subrange(1, 1 + nl as int));
        }
        let name = name_str.to_owned();
        let mut out = match lookup_binding(env, &name) {
            Some(v) => v,
            None => String::new(),
        };
        let rest = s.substring_char(1 + nl, n);
        proof {
            assert(rest@ =~= s@.skip(1 + nl as int));
        }
        let expanded_rest = expand(rest, env);
        out.append(expanded_rest.as_str());
        out
    } else {
        let head = s.substring_char(0, 1);
        let rest = s.substring_char(1, n);
        proof {
            assert(head@ =~= seq![s@[0]]);
            assert(rest@ =~= s@.skip(1));
        }
        let mut out = head.to_owned();
        let expanded_rest = expand(rest, env);
        out.append(expanded_rest.as_str());
        out
    }
}

} // verus!
use vstd::prelude::*;

verus! {

/// Edge `e` of the list declares output `p`.
pub open spec fn edge_declares(s: Seq<BuildEdge>, e: int, p: Seq<char>) -> bool {
    0 <= e < s.len() && s[e].output_views().contains(p)
}

/// The edge list is well formed: every edge has at least one output, no
/// edge repeats an output, and no two edges share an output.
pub open spec fn edges_wf(s: Seq<BuildEdge>) -> bool {
    &&& forall|e: int| 0 <= e < s.len() ==> (#[trigger] s[e]).outputs@.len() >= 1
    &&& forall|e: int| 0 <= e < s.len() ==> (#[trigger] s[e]).output_views().no_duplicates()
    &&& forall|i: int, j: int, p: Seq<char>|
        edge_declares(s, i, p) && edge_declares(s, j, p) ==> i == j
}

fn output_declared(edges: &Vec<BuildEdge>, path: &String) -> (r: bool)
    ensures
        r == exists|e: int| edge_declares(edges@, e, path@),
{
    let mut e: usize = 0;
    while e < edges.len()
        invariant
            e <= edges@.len(),
            forall|k: int| 0 <= k < e ==> !edge_declares(edges@, k, path@),
        decreases edges@.len() - e,
    {
        if crate::configuration::contains_path(&edges[e].outputs, path) {
            proof {
                assert(edge_declares(edges@, e as int, path@));
            }
            return true;
        }
        e = e + 1;
    }
    false
}

/// Append one edge, refusing a declared output that is already taken:
/// outputs must be unique across the whole configuration.
fn try_push_edge(edges: &mut Vec<BuildEdge>, edge: BuildEdge) -> (r: Result<(), ApplicationError>)
    requires
        edges_wf(old(edges)@),
        edge.outputs@.len() >= 1,
    ensures
        r is Ok ==> edges_wf(final(edges)@) && final(edges)@ == old(edges)@.push(edge)
            && push_edge_model(edges_model(old(edges)@), edge_model(edge)) == Result::<
            Seq<EdgeModel>,
            ErrorModel,
        >::Ok(edges_model(final(edges)@)),
        r is Err ==> final(edges)@ == old(edges)@ && push_edge_model(
            edges_model(old(edges)@),
            edge_model(edge),
        ) == Result::<Seq<EdgeModel>, ErrorModel>::Err(err_model(r->Err_0)),
{
    let ghost edge0 = edge;
    let ghost em = edge_model(edge);
    let ghost big_em = edges_model(edges@);
    proof {
        assert(forall|x: int|
            0 <= x < big_em.len() ==> (#[trigger] big_em[x]).outputs
                == edges@[x].output_views());
        assert(forall|t: int|
            0 <= t < em.outputs.len() ==> (#[trigger] em.outputs[t]) == edge.outputs@[t]@);
    }
    let mut k: usize = 0;
    while k < edge.outputs.len()
        invariant
            edge == edge0,
            em == edge_model(edge0),
            edges_wf(edges@),
            edges@ == old(edges)@,
            big_em == edges_model(edges@),
            forall|x: int|
                0 <= x < big_em.len() ==> (#[trigger] big_em[x]).outputs
                    == edges@[x].output_views(),
            forall|t: int|
                0 <= t < em.outputs.len() ==> (#[trigger] em.outputs[t])
                    == edge0.outputs@[t]@,
            k <= edge0.outputs@.len(),
            em.outputs.len() == edge0.outputs@.len(),
            push_edge_check(big_em, em, 0) == push_edge_check(big_em, em, k as int),
            forall|t: int, e: int| 0 <= t < k ==> !edge_declares(edges@, e, edge0.outputs@[t]@),
            forall|a: int, b: int| 0 <= a < b < k ==> edge0.outputs@[a]@ != edge0.outputs@[b]@,
        decreases edge0.outputs@.len() - k,
    {
        if output_declared(edges, &edge.outputs[k]) {
            let perr = edge.outputs[k].clone();
            proof {
                let x = choose|e: int| edge_declares(edges@, e, perr@);
                assert(big_em[x].outputs.contains(em.outputs[k as int]));
                assert(push_edge_check(big_em, em, k as int) == Result::<
                    Seq<EdgeModel>,
                    ErrorModel,
                >::Err(ErrorModel::Duplicate(em.outputs[k as int])));
                assert(err_model(ApplicationError::DuplicateOutput(perr))
                    == ErrorModel::Duplicate(em.outputs[k as int]));
            }
            return Err(ApplicationError::DuplicateOutput(perr));
        }
        proof {
            assert forall|x: int|
                0 <= x < big_em.len() implies !(#[trigger] big_em[x]).outputs.contains(
                em.outputs[k as int],
            ) by {
                assert(!edge_declares(edges@, x, edge0.outputs@[k as int]@));
            }
        }
        let mut a: usize = 0;
        while a < k
            invariant
                edge == edge0,
                em == edge_model(edge0),
                edges@ == old(edges)@,
                edges_wf(edges@),
                big_em == edges_model(edges@),
                a <= k,
                k < edge0.outputs@.len(),
                em.outputs.len() == edge0.outputs@.len(),
                forall|t: int|
                    0 <= t < em.outputs.len() ==> (#[trigger] em.outputs[t])
                        == edge0.outputs@[t]@,
                push_edge_check(big_em, em, 0) == push_edge_check(big_em, em, k as int),
                forall|x: int|
                    0 <= x < big_em.len() ==> !(#[trigger] big_em[x]).outputs.contains(
                        em.outputs[k as int],
                    ),
                forall|t: int| 0 <= t < a ==> edge0.outputs@[t]@ != edge0.outputs@[k as int]@,
            decreases k - a,
        {
            if edge.outputs[a] == edge.outputs[k] {
                let perr = edge.outputs[k].clone();
                proof {
                    assert(em.outputs[a as int] == em.outputs[k as int]);
                    assert(push_edge_check(big_em, em, k as int) == Result::<
                        Seq<EdgeModel>,
                        ErrorModel,
                    >::Err(ErrorModel::Duplicate(em.outputs[k as int])));
                    assert(err_model(ApplicationError::DuplicateOutput(perr))
                        == ErrorModel::Duplicate(em.outputs[k as int]));
                }
                return Err(ApplicationError::DuplicateOutput(perr));
            }
            a = a + 1;
        }
        proof {
            assert(!(exists|t: int| 0 <= t < k && em.outputs[t] == em.outputs[k as int])) by {
                if exists|t: int| 0 <= t < k && em.outputs[t] == em.outputs[k as int] {
                    let t = choose|t: int| 0 <= t < k && em.outputs[t] == em.outputs[k as int];
                    assert(edge0.outputs@[t]@ != edge0.outputs@[k as int]@);
                }
            }
            assert(push_edge_check(big_em, em, k as int) == push_edge_check(
                big_em,
                em,
                k as int + 1,
            ));
        }
        k = k + 1;
    }
    let ghost pre = edges@;
    let ghost new_edge = edge;
    edges.push(edge);
    proof {
        assert(edges@ == pre.push(new_edge));
        assert(push_edge_check(big_em, em, edge0.outputs@.len() as int) == Result::<
            Seq<EdgeModel>,
            ErrorModel,
        >::Ok(big_em.push(em)));
        assert(edges_model(edges@) =~= big_em.push(em));
        assert(new_edge.output_views().no_duplicates()) by {
            assert(forall|t: int|
                0 <= t < new_edge.outputs@.len() ==> new_edge.output_views()[t]
                    == (#[trigger] new_edge.outputs@[t])@);
        }
        assert forall|i: int, j: int, p: Seq<char>|
            edge_declares(edges@, i, p) && edge_declares(edges@, j, p) implies i == j by {
            if i < pre.len() && j < pre.len() {
                assert(edge_declares(pre, i, p));
                assert(edge_declares(pre, j, p));
            } else if i < pre.len() && j == pre.len() {
                let t = choose|t: int|
                    0 <= t < new_edge.output_views().len() && new_edge.output_views()[t] == p;
                assert(new_edge.output_views()[t] == new_edge.outputs@[t]@);
                assert(!edge_declares(pre, i, new_edge.outputs@[t]@));
            } else if j < pre.len() && i == pre.len() {
                let t = choose|t: int|
                    0 <= t < new_edge.output_views().len() && new_edge.output_views()[t] == p;
                assert(new_edge.output_views()[t] == new_edge.outputs@[t]@);
                assert(!edge_declares(pre, j, new_edge.outputs@[t]@));
            }
        }
        assert(forall|e: int|
            0 <= e < edges@.len() ==> (#[trigger] edges@[e]).outputs@.len() >= 1);
    }
    Ok(())
}

fn find_module(modules: &Vec<(String, Module)>, path: &String) -> (r: Option<usize>)
    ensures
        match r {
            Some(i) => i < modules@.len() && modules@[i as int].0@ == path@
                && find_module_model(modules@, path@) == Option::Some(i as int),
            None => find_module_model(modules@, path@) is None,
        },
{
    proof {
        assert(modules@.skip(0) =~= modules@);
    }
    let mut i: usize = 0;
    while i < modules.len()
        invariant
            i <= modules@.len(),
            find_module_model(modules@, path@) == (match find_module_model(
                modules@.skip(i as int),
                path@,
            ) {
                Option::Some(k) => Option::Some(i + k),
                Option::None => Option::None::<int>,
            }),
        decreases modules@.len() - i,
    {
        proof {
            assert(modules@.skip(i as int)[0] == modules@[i as int]);
        }
        if modules[i].0 == *path {
            proof {
                assert(find_module_model(modules@.skip(i as int), path@)
                    == Option::Some(0int));
            }
            return Some(i);
        }
        proof {
            assert(modules@.skip(i as int).drop_first() =~= modules@.skip(i as int + 1));
            let m1 = find_module_model(modules@.skip(i as int + 1), path@);
            assert(find_module_model(modules@.skip(i as int), path@) == (match m1 {
                Option::Some(k) => Option::Some(k + 1),
                Option::None => Option::None::<int>,
            }));
        }
        i = i + 1;
    }
    proof {
        assert(modules@.skip(modules@.len() as int).len() == 0);
    }
    None
}

fn find_rule(rules: &Vec<Rule>, name: &String) -> (r: Option<Rule>)
    ensures
        match r {
            Some(rule) => rule.name@ == name@ && find_rule_model(rules_model(rules@), name@)
                == Option::Some(rule.command@),
            None => find_rule_model(rules_model(rules@), name@) is None,
        },
{
    proof {
        assert(rules_model(rules@).take(rules@.len() as int) =~= rules_model(rules@));
    }
    let mut i: usize = rules.len();
    while i > 0
        invariant
            i <= rules@.len(),
            find_rule_model(rules_model(rules@), name@) == find_rule_model(
                rules_model(rules@).take(i as int),
                name@,
            ),
        decreases i,
    {
        i = i - 1;
        proof {
            assert(rules_model(rules@).take(i as int + 1).drop_last() =~= rules_model(
                rules@,
            ).take(i as int));
            assert(rules_model(rules@).take(i as int + 1).last() == rules_model(rules@)[
                i as int
            ]);
            assert(rules_model(rules@)[i as int] == (rules@[i as int].name@, rules@[
                i as int
            ].command@));
        }
        if rules[i].name == *name {
            return Some(Rule { name: rules[i].name.clone(), command: rules[i].command.clone() });
        }
    }
    proof {
        assert(rules_model(rules@).take(0).len() == 0);
    }
    None
}

fn resolve_reference(
    dependencies: &ModuleDependencyMap,
    importer: &String,
    literal: &String,
) -> (r: Option<String>)
    ensures
        match r {
            Some(p) => resolve_model(dependencies@, importer@, literal@)
                == Option::Some(p@),
            None => resolve_model(dependencies@, importer@, literal@) is None,
        },
{
    proof {
        assert(dependencies@.skip(0) =~= dependencies@);
    }
    let mut i: usize = 0;
    while i < dependencies.len()
        invariant
            i <= dependencies@.len(),
            resolve_model(dependencies@, importer@, literal@) == resolve_model(
                dependencies@.skip(i as int),
                importer@,
                literal@,
            ),
        decreases dependencies@.len() - i,
    {
        proof {
            assert(dependencies@.skip(i as int)[0] == dependencies@[i as int]);
        }
        if dependencies[i].0 == *importer {
            let refs = &dependencies[i].1;
            proof {
                assert(resolve_model(dependencies@.skip(i as int), importer@, literal@)
                    == resolve_in_refs(refs@, literal@));
                assert(refs@.skip(0) =~= refs@);
            }
            let mut j: usize = 0;
            while j < refs.len()
                invariant
                    i < dependencies@.len(),
                    refs@ == dependencies@[i as int].1@,
                    j <= refs@.len(),
                    resolve_model(dependencies@, importer@, literal@) == resolve_in_refs(
                        refs@.skip(j as int),
                        literal@,
                    ),
                decreases refs@.len() - j,
            {
                proof {
                    assert(refs@.skip(j as int)[0] == refs@[j as int]);
                }
                if refs[j].0 == *literal {
                    proof {
                        assert(resolve_in_refs(refs@.skip(j as int), literal@)
                            == Option::Some(refs@[j as int].1@));
                    }
                    return Some(refs[j].1.clone());
                }
                proof {
                    assert(refs@.skip(j as int).drop_first() =~= refs@.skip(j as int + 1));
                }
                j = j + 1;
            }
            proof {
                assert(refs@.skip(refs@.len() as int).len() == 0);
            }
            return None;
        }
        proof {
            assert(dependencies@.skip(i as int).drop_first() =~= dependencies@.skip(
                i as int + 1,
            ));
        }
        i = i + 1;
    }
    proof {
        assert(dependencies@.skip(dependencies@.len() as int).len() == 0);
    }
    None
}

fn clone_bindings(v: &Vec<(String, String)>) -> (r: Vec<(String, String)>)
    ensures
        r@ == v@,
{
    let mut r: Vec<(String, String)> = Vec::new();
    let mut i: usize = 0;
    while i < v.len()
        invariant
            i <= v@.len(),
            r@ =~= v@.take(i as int),
        decreases v@.len() - i,
    {
        r.push((v[i].0.clone(), v[i].1.clone()));
        i = i + 1;
    }
    proof {
        assert(v@.take(v@.len() as int) =~= v@);
    }
    r
}

fn clone_rules(v: &Vec<Rule>) -> (r: Vec<Rule>)
    ensures
        r@ == v@,
{
    let mut r: Vec<Rule> = Vec::new();
    let mut i: usize = 0;
    while i < v.len()
        invariant
            i <= v@.len(),
            r@ =~= v@.take(i as int),
        decreases v@.len() - i,
    {
        r.push(Rule { name: v[i].name.clone(), command: v[i].command.clone() });
        proof {
            assert(r@.last() == v@[i as int]);
            assert(r@ =~= v@.take(i + 1));
        }
        i = i + 1;
    }
    proof {
        assert(v@.take(v@.len() as int) =~= v@);
    }
    r
}

fn expand_all(paths: &Vec<String>, env: &Vec<(String, String)>) -> (r: Vec<String>)
    ensures
        r@.len() == paths@.len(),
        path_views(r@) == expand_all_model(paths@, env_map(env@)),
{
    let mut r: Vec<String> = Vec::new();
    let mut i: usize = 0;
    while i < paths.len()
        invariant
            i <= paths@.len(),
            r@.len() == i,
            forall|k: int|
                0 <= k < i ==> (#[trigger] r@[k])@ == expand_spec(paths@[k]@, env_map(env@)),
        decreases paths@.len() - i,
    {
        r.push(expand(paths[i].as_str(), env));
        i = i + 1;
    }
    proof {
        assert(path_views(r@) =~= expand_all_model(paths@, env_map(env@)));
    }
    r
}

/// The inputs or outputs joined by single spaces, as `$in` and `$out`
/// see them.
fn join_spaces(paths: &Vec<String>) -> (r: String)
    ensures
        r@ == join_model(path_views(paths@)),
{
    let mut r = String::new();
    let mut i: usize = 0;
    while i < paths.len()
        invariant
            i <= paths@.len(),
            r@ == join_model(path_views(paths@).take(i as int)),
        decreases paths@.len() - i,
    {
        if i > 0 {
            r.append(" ");
        }
        r.append(paths[i].as_str());
        proof {
            reveal_strlit(" ");
            assert(" "@ =~= seq![' ']);
            assert(path_views(paths@).take(i as int + 1).drop_last() =~= path_views(
                paths@,
            ).take(i as int));
            assert(path_views(paths@).take(i as int + 1).last() == paths@[i as int]@);
            if i == 0 {
                assert(join_model(path_views(paths@).take(1)) == paths@[0]@);
                assert(r@ =~= paths@[0]@);
            }
        }
        i = i + 1;
    }
    proof {
        assert(path_views(paths@).take(paths@.len() as int) =~= path_views(paths@));
    }
    r
}

} // verus!
use vstd::prelude::*;

verus! {

proof fn lemma_process_unfold(
    modules: Seq<(String, Module)>,
    deps: Seq<(String, Vec<(String, String)>)>,
    path: Seq<char>,
    st: StateModel,
    fuel: nat,
    mi: int,
)
    requires
        fuel > 0,
        find_module_model(modules, path) == Option::Some(mi),
        0 <= mi < modules.len(),
    ensures
        process_module_model(modules, deps, path, st, fuel) == statements_model(
            modules,
            deps,
            path,
            modules[mi].1.statements@,
            0,
            st,
            fuel,
        ),
{
}

#[verifier::rlimit(100)]
fn process_module(
    modules: &Vec<(String, Module)>,
    dependencies: &ModuleDependencyMap,
    path: &String,
    variables: &mut Vec<(String, String)>,
    rules: &mut Vec<Rule>,
    edges: &mut Vec<BuildEdge>,
    defaults: &mut Vec<String>,
    fuel: usize,
) -> (r: Result<(), ApplicationError>)
    requires
        edges_wf(old(edges)@),
    ensures
        edges_wf(final(edges)@),
        r is Ok ==> process_module_model(
            modules@,
            dependencies@,
            path@,
            state_model(old(variables)@, old(rules)@, old(edges)@, old(defaults)@),
            fuel as nat,
        ) == Result::<StateModel, ErrorModel>::Ok(
            state_model(final(variables)@, final(rules)@, final(edges)@, final(defaults)@),
        ),
        r is Err ==> process_module_model(
            modules@,
            dependencies@,
            path@,
            state_model(old(variables)@, old(rules)@, old(edges)@, old(defaults)@),
            fuel as nat,
        ) == Result::<StateModel, ErrorModel>::Err(err_model(r->Err_0)),
    decreases fuel,
{
    let ghost entry_st = state_model(variables@, rules@, edges@, defaults@);
    if fuel == 0 {
        proof {
            assert(process_module_model(modules@, dependencies@, path@, entry_st, fuel as nat)
                == Result::<StateModel, ErrorModel>::Err(ErrorModel::CircularModule));
        }
        return Err(ApplicationError::CircularModuleDependency);
    }
    let mi = match find_module(modules, path) {
        Some(i) => i,
        None => {
            proof {
                assert(process_module_model(
                    modules@,
                    dependencies@,
                    path@,
                    entry_st,
                    fuel as nat,
                ) == Result::<StateModel, ErrorModel>::Err(ErrorModel::ModuleNotFound(path@)));
            }
            return Err(ApplicationError::ModuleNotFound(path.clone()));
        },
    };
    let ghost stmts_view = modules@[mi as int].1.statements@;
    let n_st = modules[mi].1.statements.len();
    let phony = String::from_str("phony");
    let ghost fuel0 = fuel;
    let mut si: usize = 0;
    while si < n_st
        invariant
            edges_wf(edges@),
            mi < modules@.len(),
            find_module_model(modules@, path@) == Option::Some(mi as int),
            stmts_view == modules@[mi as int].1.statements@,
            n_st == stmts_view.len(),
            fuel == fuel0,
            fuel >= 1,
            phony@ == "phony"@,
            si <= n_st,
            statements_model(
                modules@,
                dependencies@,
                path@,
                stmts_view,
                si as int,
                state_model(variables@, rules@, edges@, defaults@),
                fuel as nat,
            ) == statements_model(
                modules@,
                dependencies@,
                path@,
                stmts_view,
                0,
                state_model(old(variables)@, old(rules)@, old(edges)@, old(defaults)@),
                fuel as nat,
            ),
        decreases n_st - si,
    {
        let ghost st_pre = state_model(variables@, rules@, edges@, defaults@);
        match &modules[mi].1.statements[si] {
            Statement::VariableDefinition(name, value) => {
                proof {
                    lemma_env_of_bindings(variables@);
                }
                let v = expand(value.as_str(), variables);
                let ghost pre_vars = variables@;
                variables.push((name.clone(), v));
                proof {
                    assert(bindings_model(variables@) =~= bindings_model(pre_vars).push(
                        (name@, v@),
                    ));
                    assert(statements_model(
                        modules@,
                        dependencies@,
                        path@,
                        stmts_view,
                        si as int,
                        st_pre,
                        fuel as nat,
                    ) == statements_model(
                        modules@,
                        dependencies@,
                        path@,
                        stmts_view,
                        si as int + 1,
                        state_model(variables@, rules@, edges@, defaults@),
                        fuel as nat,
                    ));
                }
            },
            Statement::Rule(rule) => {
                let ghost pre_rules = rules@;
                rules.push(Rule { name: rule.name.clone(), command: rule.command.clone() });
                proof {
                    assert(rules_model(rules@) =~= rules_model(pre_rules).push(
                        (rule.name@, rule.command@),
                    ));
                    assert(statements_model(
                        modules@,
                        dependencies@,
                        path@,
                        stmts_view,
                        si as int,
                        st_pre,
                        fuel as nat,
                    ) == statements_model(
                        modules@,
                        dependencies@,
                        path@,
                        stmts_view,
                        si as int + 1,
                        state_model(variables@, rules@, edges@, defaults@),
                        fuel as nat,
                    ));
                }
            },
            Statement::Default(paths) => {
                proof {
                    lemma_env_of_bindings(variables@);
                }
                let expanded = expand_all(paths, variables);
                let ghost pre_defaults = defaults@;
                let mut k: usize = 0;
                while k < expanded.len()
                    invariant
                        k <= expanded@.len(),
                        edges_wf(edges@),
                        st_pre == (StateModel {
                            variables: bindings_model(variables@),
                            rules: rules_model(rules@),
                            edges: edges_model(edges@),
                            defaults: path_views(pre_defaults),
                        }),
                        path_views(expanded@) == expand_all_model(
                            paths@,
                            env_of(st_pre.variables),
                        ),
                        path_views(defaults@) == path_views(pre_defaults) + path_views(
                            expanded@,
                        ).take(k as int),
                    decreases expanded@.len() - k,
                {
                    let ghost dpre = defaults@;
                    defaults.push(expanded[k].clone());
                    proof {
                        assert(defaults@.drop_last() =~= dpre);
                        assert(defaults@.last()@ == expanded@[k as int]@);
                        assert(forall|i: int|
                            0 <= i < defaults@.len() ==> #[trigger] path_views(defaults@)[i]
                                == defaults@[i]@);
                        assert(forall|i: int|
                            0 <= i < pre_defaults.len() ==> #[trigger] path_views(
                                pre_defaults,
                            )[i] == pre_defaults[i]@);
                        assert(forall|i: int|
                            0 <= i < dpre.len() ==> #[trigger] path_views(dpre)[i]
                                == dpre[i]@);
                        assert(forall|i: int|
                            0 <= i < defaults@.len() - 1 ==> defaults@[i] == dpre[i]);
                        assert(path_views(dpre) == path_views(pre_defaults) + path_views(
                            expanded@,
                        ).take(k as int));
                        assert(path_views(dpre).len() == dpre.len());
                        assert(path_views(pre_defaults).len() == pre_defaults.len());
                        assert(path_views(expanded@).take(k as int).len() == k);
                        assert(dpre.len() == pre_defaults.len() + k);
                        assert(defaults@.len() == pre_defaults.len() + k + 1);
                        assert forall|i: int|
                            0 <= i < defaults@.len() implies path_views(defaults@)[i] == (
                        path_views(pre_defaults) + path_views(expanded@).take(k as int + 1))[
                            i
                        ] by {
                            assert(path_views(defaults@)[i] == defaults@[i]@);
                            if i < defaults@.len() - 1 {
                                assert(defaults@[i] == dpre[i]);
                                assert(path_views(dpre)[i] == dpre[i]@);
                                if i < pre_defaults.len() {
                                    assert(path_views(dpre)[i] == path_views(pre_defaults)[i]);
                                } else {
                                    assert(path_views(dpre)[i] == path_views(expanded@).take(
                                        k as int,
                                    )[i - pre_defaults.len()]);
                                    assert(path_views(expanded@).take(k as int)[i
                                        - pre_defaults.len()] == path_views(expanded@)[i
                                        - pre_defaults.len()]);
                                    assert(path_views(expanded@).take(k as int + 1)[i
                                        - pre_defaults.len()] == path_views(expanded@)[i
                                        - pre_defaults.len()]);
                                }
                            } else {
                                assert(defaults@[i]@ == expanded@[k as int]@);
                                assert(path_views(expanded@).take(k as int + 1)[k as int]
                                    == path_views(expanded@)[k as int]);
                                assert(path_views(expanded@)[k as int] == expanded@[
                                    k as int
                                ]@);
                            }
                        }
                        assert(path_views(defaults@) =~= path_views(pre_defaults)
                            + path_views(expanded@).take(k as int + 1));
                    }
                    k = k + 1;
                }
                proof {
                    assert(path_views(expanded@).take(expanded@.len() as int) =~= path_views(
                        expanded@,
                    ));
                    assert(path_views(defaults@) =~= st_pre.defaults + expand_all_model(
                        paths@,
                        env_of(st_pre.variables),
                    ));
                    assert(statements_model(
                        modules@,
                        dependencies@,
                        path@,
                        stmts_view,
                        si as int,
                        st_pre,
                        fuel as nat,
                    ) == statements_model(
                        modules@,
                        dependencies@,
                        path@,
                        stmts_view,
                        si as int + 1,
                        state_model(variables@, rules@, edges@, defaults@),
                        fuel as nat,
                    ));
                }
            },
            Statement::Build(b) => {
                proof {
                    lemma_env_of_bindings(variables@);
                }
                let outputs = expand_all(&b.outputs, variables);
                if outputs.len() == 0 {
                    proof {
                        assert(statements_model(
                            modules@,
                            dependencies@,
                            path@,
                            stmts_view,
                            si as int,
                            st_pre,
                            fuel as nat,
                        ) == Result::<StateModel, ErrorModel>::Err(ErrorModel::MissingOutputs));
                        lemma_process_unfold(
                            modules@,
                            dependencies@,
                            path@,
                            state_model(old(variables)@, old(rules)@, old(edges)@, old(defaults)@),
                            fuel as nat,
                            mi as int,
                        );
                    }
                    return Err(ApplicationError::MissingOutputs);
                }
                let inputs = expand_all(&b.inputs, variables);
                let implicit_inputs = expand_all(&b.implicit_inputs, variables);
                let order_only_inputs = expand_all(&b.order_only_inputs, variables);
                let command: Option<String> = if b.rule == phony {
                    Option::None
                } else {
                    match find_rule(rules, &b.rule) {
                        Option::None => {
                            proof {
                                assert(statements_model(
                                    modules@,
                                    dependencies@,
                                    path@,
                                    stmts_view,
                                    si as int,
                                    st_pre,
                                    fuel as nat,
                                ) == Result::<StateModel, ErrorModel>::Err(
                                    ErrorModel::RuleNotFound(b.rule@),
                                ));
                                lemma_process_unfold(
                                    modules@,
                                    dependencies@,
                                    path@,
                                    state_model(
                                        old(variables)@,
                                        old(rules)@,
                                        old(edges)@,
                                        old(defaults)@,
                                    ),
                                    fuel as nat,
                                    mi as int,
                                );
                            }
                            return Err(ApplicationError::RuleNotFound(b.rule.clone()));
                        },
                        Option::Some(rule) => {
                            let mut env2 = clone_bindings(variables);
                            let ghost env2_base = env2@;
                            let in_name = String::from_str("in");
                            let joined_in = join_spaces(&inputs);
                            env2.push((in_name, joined_in));
                            let out_name = String::from_str("out");
                            let joined_out = join_spaces(&outputs);
                            env2.push((out_name, joined_out));
                            proof {
                                assert(bindings_model(env2@) =~= st_pre.variables.push(
                                    ("in"@, join_model(path_views(inputs@))),
                                ).push(("out"@, join_model(path_views(outputs@)))));
                                lemma_env_of_bindings(env2@);
                            }
                            Option::Some(expand(rule.command.as_str(), &env2))
                        },
                    }
                };
                let new_edge = BuildEdge {
                    outputs,
                    inputs,
                    implicit_inputs,
                    order_only_inputs,
                    command,
                };
                match try_push_edge(edges, new_edge) {
                    Ok(()) => {
                        proof {
                            assert(statements_model(
                                modules@,
                                dependencies@,
                                path@,
                                stmts_view,
                                si as int,
                                st_pre,
                                fuel as nat,
                            ) == statements_model(
                                modules@,
                                dependencies@,
                                path@,
                                stmts_view,
                                si as int + 1,
                                state_model(variables@, rules@, edges@, defaults@),
                                fuel as nat,
                            ));
                        }
                    },
                    Err(e) => {
                        proof {
                            assert(statements_model(
                                modules@,
                                dependencies@,
                                path@,
                                stmts_view,
                                si as int,
                                st_pre,
                                fuel as nat,
                            ) == Result::<StateModel, ErrorModel>::Err(err_model(e)));
                            lemma_process_unfold(
                                modules@,
                                dependencies@,
                                path@,
                                state_model(
                                    old(variables)@,
                                    old(rules)@,
                                    old(edges)@,
                                    old(defaults)@,
                                ),
                                fuel as nat,
                                mi as int,
                            );
                        }
                        return Err(e);
                    },
                }
            },
            Statement::Include(p) => {
                let resolved = match resolve_reference(dependencies, path, p) {
                    Some(r2) => r2,
                    None => {
                        proof {
                            assert(statements_model(
                                modules@,
                                dependencies@,
                                path@,
                                stmts_view,
                                si as int,
                                st_pre,
                                fuel as nat,
                            ) == Result::<StateModel, ErrorModel>::Err(
                                ErrorModel::ModuleNotFound(p@),
                            ));
                            lemma_process_unfold(
                                modules@,
                                dependencies@,
                                path@,
                                state_model(
                                    old(variables)@,
                                    old(rules)@,
                                    old(edges)@,
                                    old(defaults)@,
                                ),
                                fuel as nat,
                                mi as int,
                            );
                        }
                        return Err(ApplicationError::ModuleNotFound(p.clone()));
                    },
                };
                match process_module(
                    modules,
                    dependencies,
                    &resolved,
                    variables,
                    rules,
                    edges,
                    defaults,
                    fuel - 1,
                ) {
                    Ok(()) => {
                        proof {
                            assert(statements_model(
                                modules@,
                                dependencies@,
                                path@,
                                stmts_view,
                                si as int,
                                st_pre,
                                fuel as nat,
                            ) == statements_model(
                                modules@,
                                dependencies@,
                                path@,
                                stmts_view,
                                si as int + 1,
                                state_model(variables@, rules@, edges@, defaults@),
                                fuel as nat,
                            ));
                        }
                    },
                    Err(e) => {
                        proof {
                            assert(statements_model(
                                modules@,
                                dependencies@,
                                path@,
                                stmts_view,
                                si as int,
                                st_pre,
                                fuel as nat,
                            ) == Result::<StateModel, ErrorModel>::Err(err_model(e)));
                            lemma_process_unfold(
                                modules@,
                                dependencies@,
                                path@,
                                state_model(
                                    old(variables)@,
                                    old(rules)@,
                                    old(edges)@,
                                    old(defaults)@,
                                ),
                                fuel as nat,
                                mi as int,
                            );
                        }
                        return Err(e);
                    },
                }
            },
            Statement::Submodule(p) => {
                let resolved = match resolve_reference(dependencies, path, p) {
                    Some(r2) => r2,
                    None => {
                        proof {
                            assert(statements_model(
                                modules@,
                                dependencies@,
                                path@,
                                stmts_view,
                                si as int,
                                st_pre,
                                fuel as nat,
                            ) == Result::<StateModel, ErrorModel>::Err(
                                ErrorModel::ModuleNotFound(p@),
                            ));
                            lemma_process_unfold(
                                modules@,
                                dependencies@,
                                path@,
                                state_model(
                                    old(variables)@,
                                    old(rules)@,
                                    old(edges)@,
                                    old(defaults)@,
                                ),
                                fuel as nat,
                                mi as int,
                            );
                        }
                        return Err(ApplicationError::ModuleNotFound(p.clone()));
                    },
                };
                let mut child_vars = clone_bindings(variables);
                let mut child_rules = clone_rules(rules);
                match process_module(
                    modules,
                    dependencies,
                    &resolved,
                    &mut child_vars,
                    &mut child_rules,
                    edges,
                    defaults,
                    fuel - 1,
                ) {
                    Ok(()) => {
                        proof {
                            assert(statements_model(
                                modules@,
                                dependencies@,
                                path@,
                                stmts_view,
                                si as int,
                                st_pre,
                                fuel as nat,
                            ) == statements_model(
                                modules@,
                                dependencies@,
                                path@,
                                stmts_view,
                                si as int + 1,
                                state_model(variables@, rules@, edges@, defaults@),
                                fuel as nat,
                            ));
                        }
                    },
                    Err(e) => {
                        proof {
                            assert(statements_model(
                                modules@,
                                dependencies@,
                                path@,
                                stmts_view,
                                si as int,
                                st_pre,
                                fuel as nat,
                            ) == Result::<StateModel, ErrorModel>::Err(err_model(e)));
                            lemma_process_unfold(
                                modules@,
                                dependencies@,
                                path@,
                                state_model(
                                    old(variables)@,
                                    old(rules)@,
                                    old(edges)@,
                                    old(defaults)@,
                                ),
                                fuel as nat,
                                mi as int,
                            );
                        }
                        return Err(e);
                    },
                }
            },
        }
        si = si + 1;
    }
    proof {
        assert(statements_model(
            modules@,
            dependencies@,
            path@,
            stmts_view,
            n_st as int,
            state_model(variables@, rules@, edges@, defaults@),
            fuel as nat,
        ) == Result::<StateModel, ErrorModel>::Ok(
            state_model(variables@, rules@, edges@, defaults@),
        ));
        lemma_process_unfold(
            modules@,
            dependencies@,
            path@,
            state_model(old(variables)@, old(rules)@, old(edges)@, old(defaults)@),
            fuel as nat,
            mi as int,
        );
    }
    Ok(())
}

fn consumed_anywhere(edges: &Vec<BuildEdge>, path: &String) -> (r: bool)
    ensures
        r == consumed_model(edges_model(edges@), path@),
{
    proof {
        assert(forall|x: int|
            0 <= x < edges@.len() ==> #[trigger] edges_model(edges@)[x]
                == edge_model(edges@[x]));
    }
    let mut e: usize = 0;
    while e < edges.len()
        invariant
            e <= edges@.len(),
            forall|x: int|
                0 <= x < edges@.len() ==> #[trigger] edges_model(edges@)[x]
                    == edge_model(edges@[x]),
            forall|x: int|
                0 <= x < e ==> !((#[trigger] edges_model(edges@)[x]).inputs.contains(path@)
                    || edges_model(edges@)[x].implicit_inputs.contains(path@)
                    || edges_model(edges@)[x].order_only_inputs.contains(path@)),
        decreases edges@.len() - e,
    {
        if crate::configuration::contains_path(&edges[e].inputs, path)
            || crate::configuration::contains_path(&edges[e].implicit_inputs, path)
            || crate::configuration::contains_path(&edges[e].order_only_inputs, path) {
            proof {
                assert(edges_model(edges@)[e as int].inputs.contains(path@)
                    || edges_model(edges@)[e as int].implicit_inputs.contains(path@)
                    || edges_model(edges@)[e as int].order_only_inputs.contains(path@));
            }
            return true;
        }
        e = e + 1;
    }
    false
}

/// Fold the loaded module set into one flat configuration: interpret
/// every statement reachable from the root module (includes share the
/// root's namespace, submodules see a private copy of it), expand all
/// variable references, and collect the edge list, the defaults and the
/// build directory.  Declared outputs must be unique across the whole
/// configuration; when no default is declared, every output consumed by
/// no other edge becomes a default.  The result is exactly
/// `compile_model` of the inputs.
pub fn compile(
    modules: &Vec<(String, Module)>,
    dependencies: &ModuleDependencyMap,
    root_path: &String,
) -> (r: Result<Configuration, ApplicationError>)
    ensures
        r is Ok ==> r->Ok_0.wf() && compile_model(modules@, dependencies@, root_path@)
            == Result::<ConfigModel, ErrorModel>::Ok(config_model(r->Ok_0)),
        r is Err ==> compile_model(modules@, dependencies@, root_path@) == Result::<
            ConfigModel,
            ErrorModel,
        >::Err(err_model(r->Err_0)),
{
    let mut variables: Vec<(String, String)> = Vec::new();
    let mut rules: Vec<Rule> = Vec::new();
    let mut edges: Vec<BuildEdge> = Vec::new();
    let mut defaults: Vec<String> = Vec::new();
    let fuel = if modules.len() < usize::MAX {
        modules.len() + 1
    } else {
        modules.len()
    };
    proof {
        assert(bindings_model(variables@) =~= Seq::<(Seq<char>, Seq<char>)>::empty());
        assert(rules_model(rules@) =~= Seq::<(Seq<char>, Seq<char>)>::empty());
        assert(edges_model(edges@) =~= Seq::<EdgeModel>::empty());
        assert(path_views(defaults@) =~= Seq::<Seq<char>>::empty());
    }
    let ghost entry_st = state_model(variables@, rules@, edges@, defaults@);
    match process_module(
        modules,
        dependencies,
        root_path,
        &mut variables,
        &mut rules,
        &mut edges,
        &mut defaults,
        fuel,
    ) {
        Ok(()) => {},
        Err(e) => {
            proof {
                assert(compile_model(modules@, dependencies@, root_path@) == Result::<
                    ConfigModel,
                    ErrorModel,
                >::Err(err_model(e)));
            }
            return Err(e);
        },
    }
    let ghost st = state_model(variables@, rules@, edges@, defaults@);
    proof {
        assert(process_module_model(modules@, dependencies@, root_path@, entry_st, fuel as nat)
            == Result::<StateModel, ErrorModel>::Ok(st));
    }
    let ghost declared_defaults = defaults@.len() > 0;
    if defaults.len() == 0 {
        let ghost em2 = edges_model(edges@);
        let n = edges.len();
        proof {
            assert(em2 == st.edges);
            assert(forall|x: int|
                0 <= x < em2.len() ==> #[trigger] em2[x] == edge_model(edges@[x]));
        }
        let mut e: usize = 0;
        while e < n
            invariant
                edges_wf(edges@),
                em2 == edges_model(edges@),
                n == edges@.len(),
                e <= n,
                forall|x: int|
                    0 <= x < em2.len() ==> #[trigger] em2[x] == edge_model(edges@[x]),
                fallback_from(em2, 0, 0) == path_views(defaults@) + fallback_from(
                    em2,
                    e as int,
                    0,
                ),
            decreases n - e,
        {
            let mut o: usize = 0;
            let n_out = edges[e].outputs.len();
            while o < n_out
                invariant
                    edges_wf(edges@),
                    em2 == edges_model(edges@),
                    n == edges@.len(),
                    e < n,
                    o <= n_out,
                    n_out == edges@[e as int].outputs@.len(),
                    forall|x: int|
                        0 <= x < em2.len() ==> #[trigger] em2[x] == edge_model(edges@[x]),
                    fallback_from(em2, 0, 0) == path_views(defaults@) + fallback_from(
                        em2,
                        e as int,
                        o as int,
                    ),
                decreases n_out - o,
            {
                let out = edges[e].outputs[o].clone();
                proof {
                    assert(em2[e as int].outputs[o as int] == edges@[
                        e as int
                    ].output_views()[o as int]);
                    assert(out@ == em2[e as int].outputs[o as int]);
                }
                if !consumed_anywhere(&edges, &out) {
                    let ghost dpre = defaults@;
                    defaults.push(out);
                    proof {
                        assert(defaults@.drop_last() =~= dpre);
                        assert(path_views(defaults@) =~= path_views(dpre) + seq![
                            em2[e as int].outputs[o as int],
                        ]);
                        assert(fallback_from(em2, e as int, o as int) == seq![
                            em2[e as int].outputs[o as int],
                        ] + fallback_from(em2, e as int, o as int + 1));
                        assert((path_views(dpre) + seq![em2[e as int].outputs[o as int]])
                            + fallback_from(em2, e as int, o as int + 1) =~= path_views(dpre)
                            + (seq![em2[e as int].outputs[o as int]] + fallback_from(
                            em2,
                            e as int,
                            o as int + 1,
                        )));
                    }
                } else {
                    proof {
                        assert(fallback_from(em2, e as int, o as int) == fallback_from(
                            em2,
                            e as int,
                            o as int + 1,
                        ));
                    }
                }
                o = o + 1;
            }
            proof {
                assert(fallback_from(em2, e as int, n_out as int) == fallback_from(
                    em2,
                    e as int + 1,
                    0,
                ));
            }
            e = e + 1;
        }
        proof {
            assert(fallback_from(em2, n as int, 0).len() == 0);
            assert(path_views(defaults@) + fallback_from(em2, n as int, 0) =~= path_views(
                defaults@,
            ));
            assert(path_views(defaults@) == fallback_from(st.edges, 0, 0));
        }
    }
    proof {
        lemma_env_of_bindings(variables@);
    }
    let builddir_name = String::from_str("builddir");
    let build_directory = lookup_binding(&variables, &builddir_name);
    let c = Configuration { edges, default_outputs: defaults, build_directory };
    proof {
        assert forall|i: int, j: int, p: Seq<char>|
            c.edge_produces(i, p) && c.edge_produces(j, p) implies i == j by {
            assert(edge_declares(c.edges@, i, p));
            assert(edge_declares(c.edges@, j, p));
        }
        assert(c.wf());
        assert(config_model(c).edges == st.edges);
        if declared_defaults {
            assert(config_model(c).default_outputs == st.defaults);
        } else {
            assert(config_model(c).default_outputs == fallback_from(st.edges, 0, 0));
        }
        assert(compile_model(modules@, dependencies@, root_path@) == Result::<
            ConfigModel,
            ErrorModel,
        >::Ok(config_model(c)));
    }
    Ok(c)
}

} // verus!
use vstd::prelude::*;

verus! {

/// The spec-level image of one compiled edge.
pub struct EdgeModel {
    pub outputs: Seq<Seq<char>>,
    pub inputs: Seq<Seq<char>>,
    pub implicit_inputs: Seq<Seq<char>>,
    pub order_only_inputs: Seq<Seq<char>>,
    pub command: Option<Seq<char>>,
}

/// The spec-level image of the compiler's working state.
pub struct StateModel {
    pub variables: Seq<(Seq<char>, Seq<char>)>,
    pub rules: Seq<(Seq<char>, Seq<char>)>,
    pub edges: Seq<EdgeModel>,
    pub defaults: Seq<Seq<char>>,
}

/// The spec-level image of a compiled configuration.
pub struct ConfigModel {
    pub edges: Seq<EdgeModel>,
    pub default_outputs: Seq<Seq<char>>,
    pub build_directory: Option<Seq<char>>,
}

/// The spec-level image of an engine error.
pub enum ErrorModel {
    Build,
    CircularBuild,
    CircularModule,
    Duplicate(Seq<char>),
    MissingOutputs,
    ModuleNotFound(Seq<char>),
    RuleNotFound(Seq<char>),
    UnknownTarget(Seq<char>),
}

pub open spec fn err_model(e: ApplicationError) -> ErrorModel {
    match e {
        ApplicationError::Build => ErrorModel::Build,
        ApplicationError::CircularBuildDependency => ErrorModel::CircularBuild,
        ApplicationError::CircularModuleDependency => ErrorModel::CircularModule,
        ApplicationError::DuplicateOutput(p) => ErrorModel::Duplicate(p@),
        ApplicationError::MissingOutputs => ErrorModel::MissingOutputs,
        ApplicationError::ModuleNotFound(p) => ErrorModel::ModuleNotFound(p@),
        ApplicationError::RuleNotFound(p) => ErrorModel::RuleNotFound(p@),
        ApplicationError::UnknownTarget(p) => ErrorModel::UnknownTarget(p@),
    }
}

pub open spec fn edge_model(e: BuildEdge) -> EdgeModel {
    EdgeModel {
        outputs: path_views(e.outputs@),
        inputs: path_views(e.inputs@),
        implicit_inputs: path_views(e.implicit_inputs@),
        order_only_inputs: path_views(e.order_only_inputs@),
        command: match e.command {
            Option::Some(c) => Option::Some(c@),
            Option::None => Option::None,
        },
    }
}

pub open spec fn bindings_model(s: Seq<(String, String)>) -> Seq<(Seq<char>, Seq<char>)> {
    s.map_values(|p: (String, String)| (p.0@, p.1@))
}

pub open spec fn rules_model(s: Seq<Rule>) -> Seq<(Seq<char>, Seq<char>)> {
    s.map_values(|r: Rule| (r.name@, r.command@))
}

pub open spec fn edges_model(s: Seq<BuildEdge>) -> Seq<EdgeModel> {
    s.map_values(|e: BuildEdge| edge_model(e))
}

pub open spec fn state_model(
    variables: Seq<(String, String)>,
    rules: Seq<Rule>,
    edges: Seq<BuildEdge>,
    defaults: Seq<String>,
) -> StateModel {
    StateModel {
        variables: bindings_model(variables),
        rules: rules_model(rules),
        edges: edges_model(edges),
        defaults: path_views(defaults),
    }
}

pub open spec fn config_model(c: Configuration) -> ConfigModel {
    ConfigModel {
        edges: edges_model(c.edges@),
        default_outputs: path_views(c.default_outputs@),
        build_directory: match c.build_directory {
            Option::Some(s) => Option::Some(s@),
            Option::None => Option::None,
        },
    }
}

/// The binding environment of a model binding list; a later binding
/// shadows an earlier one.
pub open spec fn env_of(s: Seq<(Seq<char>, Seq<char>)>) -> Map<Seq<char>, Seq<char>>
    decreases s.len(),
{
    if s.len() == 0 {
        Map::empty()
    } else {
        env_of(s.drop_last()).insert(s.last().0, s.last().1)
    }
}

proof fn lemma_env_of_bindings(s: Seq<(String, String)>)
    ensures
        env_map(s) == env_of(bindings_model(s)),
    decreases s.len(),
{
    if s.len() > 0 {
        assert(bindings_model(s).drop_last() =~= bindings_model(s.drop_last()));
        lemma_env_of_bindings(s.drop_last());
    }
}

/// The first module of the set with the given path, if any.
pub open spec fn find_module_model(modules: Seq<(String, Module)>, path: Seq<char>) -> Option<int>
    decreases modules.len(),
{
    if modules.len() == 0 {
        Option::None
    } else if modules[0].0@ == path {
        Option::Some(0int)
    } else {
        match find_module_model(modules.drop_first(), path) {
            Option::Some(i) => Option::Some(i + 1),
            Option::None => Option::None,
        }
    }
}

/// The latest rule of the given name, as its command template.
pub open spec fn find_rule_model(rules: Seq<(Seq<char>, Seq<char>)>, name: Seq<char>) -> Option<
    Seq<char>,
>
    decreases rules.len(),
{
    if rules.len() == 0 {
        Option::None
    } else if rules.last().0 == name {
        Option::Some(rules.last().1)
    } else {
        find_rule_model(rules.drop_last(), name)
    }
}

pub open spec fn resolve_in_refs(refs: Seq<(String, String)>, literal: Seq<char>) -> Option<
    Seq<char>,
>
    decreases refs.len(),
{
    if refs.len() == 0 {
        Option::None
    } else if refs[0].0@ == literal {
        Option::Some(refs[0].1@)
    } else {
        resolve_in_refs(refs.drop_first(), literal)
    }
}

/// The canonical path an include or submodule literal resolves to, read
/// from the first dependency entry of the referring module.
pub open spec fn resolve_model(
    deps: Seq<(String, Vec<(String, String)>)>,
    importer: Seq<char>,
    literal: Seq<char>,
) -> Option<Seq<char>>
    decreases deps.len(),
{
    if deps.len() == 0 {
        Option::None
    } else if deps[0].0@ == importer {
        resolve_in_refs(deps[0].1@, literal)
    } else {
        resolve_model(deps.drop_first(), importer, literal)
    }
}

/// Every path expanded under the environment.
pub open spec fn expand_all_model(paths: Seq<String>, env: Map<Seq<char>, Seq<char>>) -> Seq<
    Seq<char>,
> {
    paths.map_values(|p: String| expand_spec(p@, env))
}

/// The paths joined by single spaces, as `$in` and `$out` see them.
pub open spec fn join_model(paths: Seq<Seq<char>>) -> Seq<char>
    decreases paths.len(),
{
    if paths.len() == 0 {
        Seq::empty()
    } else if paths.len() == 1 {
        paths[0]
    } else {
        join_model(paths.drop_last()) + seq![' '] + paths.last()
    }
}

/// Appending one edge, checking its outputs in order: an output already
/// declared by an earlier edge, or earlier within this edge, is a
/// duplicate.
pub open spec fn push_edge_check(edges: Seq<EdgeModel>, e: EdgeModel, k: int) -> Result<
    Seq<EdgeModel>,
    ErrorModel,
>
    decreases e.outputs.len() - k,
{
    if k < 0 || k >= e.outputs.len() {
        Result::Ok(edges.push(e))
    } else if exists|x: int| 0 <= x < edges.len() && (#[trigger] edges[x]).outputs.contains(
        e.outputs[k],
    ) {
        Result::Err(ErrorModel::Duplicate(e.outputs[k]))
    } else if exists|a: int| 0 <= a < k && e.outputs[a] == e.outputs[k] {
        Result::Err(ErrorModel::Duplicate(e.outputs[k]))
    } else {
        push_edge_check(edges, e, k + 1)
    }
}

pub open spec fn push_edge_model(edges: Seq<EdgeModel>, e: EdgeModel) -> Result<
    Seq<EdgeModel>,
    ErrorModel,
> {
    push_edge_check(edges, e, 0)
}

/// One statement of a module interpreted, then the rest: bindings are
/// expanded at definition, build statements expand their paths and their
/// rule's command (under `$in` and `$out`), an include shares the whole
/// state, and a submodule's bindings and rules stay private to it.
pub open spec fn statements_model(
    modules: Seq<(String, Module)>,
    deps: Seq<(String, Vec<(String, String)>)>,
    path: Seq<char>,
    stmts: Seq<Statement>,
    i: int,
    st: StateModel,
    fuel: nat,
) -> Result<StateModel, ErrorModel>
    decreases fuel, 0int, stmts.len() - i,
{
    if i < 0 || i >= stmts.len() {
        Result::Ok(st)
    } else {
        match stmts[i] {
            Statement::VariableDefinition(name, value) => statements_model(
                modules,
                deps,
                path,
                stmts,
                i + 1,
                StateModel {
                    variables: st.variables.push(
                        (name@, expand_spec(value@, env_of(st.variables))),
                    ),
                    rules: st.rules,
                    edges: st.edges,
                    defaults: st.defaults,
                },
                fuel,
            ),
            Statement::Rule(rule) => statements_model(
                modules,
                deps,
                path,
                stmts,
                i + 1,
                StateModel {
                    variables: st.variables,
                    rules: st.rules.push((rule.name@, rule.command@)),
                    edges: st.edges,
                    defaults: st.defaults,
                },
                fuel,
            ),
            Statement::Default(paths) => statements_model(
                modules,
                deps,
                path,
                stmts,
                i + 1,
                StateModel {
                    variables: st.variables,
                    rules: st.rules,
                    edges: st.edges,
                    defaults: st.defaults + expand_all_model(paths@, env_of(st.variables)),
                },
                fuel,
            ),
            Statement::Build(b) => {
                let env = env_of(st.variables);
                let outputs = expand_all_model(b.outputs@, env);
                if outputs.len() == 0 {
                    Result::Err(ErrorModel::MissingOutputs)
                } else {
                    let inputs = expand_all_model(b.inputs@, env);
                    let command_result: Result<Option<Seq<char>>, ErrorModel> = if b.rule@
                        == "phony"@ {
                        Result::Ok(Option::None)
                    } else {
                        match find_rule_model(st.rules, b.rule@) {
                            Option::None => Result::Err(ErrorModel::RuleNotFound(b.rule@)),
                            Option::Some(template) => Result::Ok(
                                Option::Some(
                                    expand_spec(
                                        template,
                                        env_of(
                                            st.variables.push(("in"@, join_model(inputs))).push(
                                                ("out"@, join_model(outputs)),
                                            ),
                                        ),
                                    ),
                                ),
                            ),
                        }
                    };
                    match command_result {
                        Result::Err(e) => Result::Err(e),
                        Result::Ok(command) => {
                            let em = EdgeModel {
                                outputs,
                                inputs,
                                implicit_inputs: expand_all_model(b.implicit_inputs@, env),
                                order_only_inputs: expand_all_model(b.order_only_inputs@, env),
                                command,
                            };
                            match push_edge_model(st.edges, em) {
                                Result::Err(e) => Result::Err(e),
                                Result::Ok(new_edges) => statements_model(
                                    modules,
                                    deps,
                                    path,
                                    stmts,
                                    i + 1,
                                    StateModel {
                                        variables: st.variables,
                                        rules: st.rules,
                                        edges: new_edges,
                                        defaults: st.defaults,
                                    },
                                    fuel,
                                ),
                            }
                        },
                    }
                }
            },
            Statement::Include(p) => {
                if fuel == 0 {
                    Result::Err(ErrorModel::CircularModule)
                } else {
                    match resolve_model(deps, path, p@) {
                        Option::None => Result::Err(ErrorModel::ModuleNotFound(p@)),
                        Option::Some(resolved) => match process_module_model(
                            modules,
                            deps,
                            resolved,
                            st,
                            (fuel - 1) as nat,
                        ) {
                            Result::Err(e) => Result::Err(e),
                            Result::Ok(st2) => statements_model(
                                modules,
                                deps,
                                path,
                                stmts,
                                i + 1,
                                st2,
                                fuel,
                            ),
                        },
                    }
                }
            },
            Statement::Submodule(p) => {
                if fuel == 0 {
                    Result::Err(ErrorModel::CircularModule)
                } else {
                    match resolve_model(deps, path, p@) {
                        Option::None => Result::Err(ErrorModel::ModuleNotFound(p@)),
                        Option::Some(resolved) => match process_module_model(
                            modules,
                            deps,
                            resolved,
                            st,
                            (fuel - 1) as nat,
                        ) {
                            Result::Err(e) => Result::Err(e),
                            Result::Ok(st2) => statements_model(
                                modules,
                                deps,
                                path,
                                stmts,
                                i + 1,
                                StateModel {
                                    variables: st.variables,
                                    rules: st.rules,
                                    edges: st2.edges,
                                    defaults: st2.defaults,
                                },
                                fuel,
                            ),
                        },
                    }
                }
            },
        }
    }
}

/// One module interpreted whole: its statements in order, against the
/// incoming state.  The fuel bounds the include/submodule depth, which
/// an acyclic module set never exhausts.
pub open spec fn process_module_model(
    modules: Seq<(String, Module)>,
    deps: Seq<(String, Vec<(String, String)>)>,
    path: Seq<char>,
    st: StateModel,
    fuel: nat,
) -> Result<StateModel, ErrorModel>
    decreases fuel, 1int, 0int,
{
    if fuel == 0 {
        Result::Err(ErrorModel::CircularModule)
    } else {
        match find_module_model(modules, path) {
            Option::None => Result::Err(ErrorModel::ModuleNotFound(path)),
            Option::Some(mi) => statements_model(
                modules,
                deps,
                path,
                modules[mi].1.statements@,
                0,
                st,
                fuel,
            ),
        }
    }
}

/// Whether any edge consumes the path as an input of any kind.
pub open spec fn consumed_model(edges: Seq<EdgeModel>, p: Seq<char>) -> bool {
    exists|e: int|
        0 <= e < edges.len() && ((#[trigger] edges[e]).inputs.contains(p)
            || edges[e].implicit_inputs.contains(p) || edges[e].order_only_inputs.contains(p))
}

/// The fallback default targets: every declared output no edge consumes,
/// in declaration order.
pub open spec fn fallback_from(edges: Seq<EdgeModel>, e: int, o: int) -> Seq<Seq<char>>
    decreases edges.len() - e, if 0 <= e < edges.len() { edges[e].outputs.len() - o } else { 0int },
{
    if e < 0 || e >= edges.len() {
        Seq::empty()
    } else if o < 0 || o >= edges[e].outputs.len() {
        fallback_from(edges, e + 1, 0)
    } else if !consumed_model(edges, edges[e].outputs[o]) {
        seq![edges[e].outputs[o]] + fallback_from(edges, e, o + 1)
    } else {
        fallback_from(edges, e, o + 1)
    }
}

/// The whole compiler as a function: interpret the module set from the
/// root, then settle the defaults (declared, or else the unconsumed
/// outputs) and the build directory (the final `builddir` binding).
/// `compile` must return exactly this.
pub open spec fn compile_model(
    modules: Seq<(String, Module)>,
    deps: Seq<(String, Vec<(String, String)>)>,
    root: Seq<char>,
) -> Result<ConfigModel, ErrorModel> {
    let fuel: nat = if modules.len() < usize::MAX as nat {
        modules.len() + 1
    } else {
        modules.len()
    };
    match process_module_model(
        modules,
        deps,
        root,
        StateModel {
            variables: Seq::empty(),
            rules: Seq::empty(),
            edges: Seq::empty(),
            defaults: Seq::empty(),
        },
        fuel,
    ) {
        Result::Err(e) => Result::Err(e),
        Result::Ok(st) => Result::Ok(
            ConfigModel {
                edges: st.edges,
                default_outputs: if st.defaults.len() == 0 {
                    fallback_from(st.edges, 0, 0)
                } else {
                    st.defaults
                },
                build_directory: if env_of(st.variables).contains_key("builddir"@) {
                    Option::Some(env_of(st.variables)["builddir"@])
                } else {
                    Option::None
                },
            },
        ),
    }
}

} // verus!
