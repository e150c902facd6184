//! The analysis behind `ark init`: test-project detection, layer-name suggestions,
//! dependency tiers, and the dependencies between confirmed layers.

use vstd::prelude::*;

use crate::graph::{
    component_views, graph_add_edge, graph_add_node, graph_components, graph_edges, graph_new,
    graph_nodes, graph_target, last_index_of, lemma_last_index_of, project_names, ref_count,
    tarjan_components,
};
use crate::project::ProjectFile;
use crate::order::{chars_lt, lemma_lt_total, lemma_lt_transitive, str_lt};
use crate::report::string_views;
use crate::search::{first_index, lemma_first_index, lemma_first_index_step};
use crate::text::{seq_ends_with, str_ends_with, str_eq};
use crate::tiers::{
    buckets, contains_name, entry_at, entry_is_depth, group_top, group_views, law_buckets_sorted,
    law_placed_names_unique, law_tiers_are_depths, lemma_entry_at, picked, place_cycle_groups,
    place_cycles, ref_names, set_tier, set_tiers, settle_tiers, settled_tiers, tier_buckets,
    tier_of, TierEntries,
};

verus! {

/// The result of scanning a solution: tiers bottom-to-top, isolated projects, test
/// projects, and dependency cycles.
#[derive(Debug)]
pub struct ScanResult {
    /// Tiers bottom-to-top: index 0 holds the leaves (the most foundational projects).
    pub tiers: Vec<Vec<String>>,
    /// Projects with no references to or from other projects of the solution.
    pub isolated: Vec<String>,
    /// Projects set aside as test or spec projects.
    pub test_projects: Vec<String>,
    /// Groups of projects that depend on each other (each with more than one member).
    pub cycles: Vec<Vec<String>>,
}

/// A confirmed layer and the projects assigned to it.
#[derive(Debug)]
pub struct LayerDef {
    pub name: String,
    pub projects: Vec<String>,
}

/// A dependency between two confirmed layers.
#[derive(Debug)]
pub struct InterLayerEdge {
    pub from: String,
    pub to: String,
    /// How many project references make up the dependency.
    pub ref_count: usize,
    /// A lower (more foundational) layer depends on a higher one.
    pub unusual: bool,
}

/// `name` ends in `.Tests`, `.Specs`, `.IntegrationTests` or `.UnitTests`.
pub open spec fn is_test_name(name: Seq<char>) -> bool {
    ||| seq_ends_with(name, ".Tests"@)
    ||| seq_ends_with(name, ".Specs"@)
    ||| seq_ends_with(name, ".IntegrationTests"@)
    ||| seq_ends_with(name, ".UnitTests"@)
}

/// Whether `name` is a test or spec project's name.
pub fn is_test_project(name: &str) -> (r: bool)
    ensures
        r == is_test_name(name@),
{
    str_ends_with(name, ".Tests") || str_ends_with(name, ".Specs") || str_ends_with(
        name,
        ".IntegrationTests",
    ) || str_ends_with(name, ".UnitTests")
}

/// `name` ends with one of `hints`.
pub open spec fn has_hint(name: Seq<char>, hints: Seq<Seq<char>>) -> bool {
    exists|h: int| 0 <= h < hints.len() && seq_ends_with(name, #[trigger] hints[h])
}

/// How many of the first `n` names end with one of `hints`.
pub open spec fn hint_score(names: Seq<Seq<char>>, hints: Seq<Seq<char>>, n: nat) -> nat
    decreases n,
{
    if n == 0 {
        0
    } else {
        hint_score(names, hints, (n - 1) as nat) + if has_hint(names[n - 1], hints) {
            1nat
        } else {
            0nat
        }
    }
}

/// The hint suffixes of the four layer kinds, in order.
pub open spec fn layer_hints(kind: int) -> Seq<Seq<char>> {
    if kind == 0 {
        seq![".Domain"@, ".Core"@, ".Entities"@]
    } else if kind == 1 {
        seq![".Application"@, ".UseCases"@, ".Services"@]
    } else if kind == 2 {
        seq![".Infrastructure"@, ".Persistence"@, ".Adapters"@]
    } else {
        seq![".Api"@, ".Web"@, ".Host"@]
    }
}

/// The names of the four layer kinds, in order.
pub open spec fn layer_kind_name(kind: int) -> Seq<char> {
    if kind == 0 {
        "Domain"@
    } else if kind == 1 {
        "Application"@
    } else if kind == 2 {
        "Infrastructure"@
    } else {
        "Presentation"@
    }
}

/// The score of layer kind `kind` over `names`.
pub open spec fn kind_score(names: Seq<Seq<char>>, kind: int) -> nat {
    hint_score(names, layer_hints(kind), names.len())
}

/// The suggested name: the kind with the highest positive score (the last one on a tie),
/// or `Layer` when no name has a hint suffix.
pub open spec fn suggested_name(names: Seq<Seq<char>>) -> Seq<char> {
    let best = choose_best(names, 4);
    if best < 0 {
        "Layer"@
    } else {
        layer_kind_name(best)
    }
}

/// Among the first `n` kinds, the last one with the highest positive score, or -1.
pub open spec fn choose_best(names: Seq<Seq<char>>, n: int) -> int
    decreases n,
{
    if n <= 0 {
        -1
    } else {
        let prev = choose_best(names, n - 1);
        let s = kind_score(names, n - 1);
        if s > 0 && (prev < 0 || s >= kind_score(names, prev)) {
            n - 1
        } else {
            prev
        }
    }
}

/// Whether `name` ends with one of `hints`.
fn ends_with_hint(name: &str, hints: &[&str]) -> (r: bool)
    ensures
        r == has_hint(name@, hints@.map_values(|h: &str| h@)),
{
    let ghost hs = hints@.map_values(|h: &str| h@);
    let mut h: usize = 0;
    while h < hints.len()
        invariant
            h <= hints@.len(),
            hs == hints@.map_values(|h: &str| h@),
            forall|k: int| 0 <= k < h ==> !seq_ends_with(name@, #[trigger] hs[k]),
        decreases hints@.len() - h,
    {
        if str_ends_with(name, hints[h]) {
            proof {
                assert(seq_ends_with(name@, hs[h as int]));
            }
            return true;
        }
        h = h + 1;
    }
    false
}

/// How many of `names` end with one of `hints`.
fn score(names: &[&str], hints: &[&str]) -> (r: usize)
    ensures
        r == hint_score(names@.map_values(|s: &str| s@), hints@.map_values(|h: &str| h@), names@.len()),
{
    let ghost ns = names@.map_values(|s: &str| s@);
    let ghost hs = hints@.map_values(|h: &str| h@);
    let mut count: usize = 0;
    let mut i: usize = 0;
    while i < names.len()
        invariant
            i <= names@.len(),
            ns == names@.map_values(|s: &str| s@),
            hs == hints@.map_values(|h: &str| h@),
            count == hint_score(ns, hs, i as nat),
            count <= i,
        decreases names@.len() - i,
    {
        if ends_with_hint(names[i], hints) {
            count = count + 1;
        }
        i = i + 1;
    }
    count
}

/// Suggests a layer name for a tier from the name suffixes of its projects: `Domain`,
/// `Application`, `Infrastructure` or `Presentation` by the most matches (the later one on a
/// tie), or `Layer` when nothing matches.
pub fn suggest_layer_name(projects: &[&str]) -> (r: &'static str)
    ensures
        r@ == suggested_name(projects@.map_values(|s: &str| s@)),
{
    let ghost ns = projects@.map_values(|s: &str| s@);
    let s0 = score(projects, &[".Domain", ".Core", ".Entities"]);
    let s1 = score(projects, &[".Application", ".UseCases", ".Services"]);
    let s2 = score(projects, &[".Infrastructure", ".Persistence", ".Adapters"]);
    let s3 = score(projects, &[".Api", ".Web", ".Host"]);
    proof {
        assert(seq![".Domain", ".Core", ".Entities"].map_values(|h: &str| h@) =~= layer_hints(0));
        assert(seq![".Application", ".UseCases", ".Services"].map_values(|h: &str| h@)
            =~= layer_hints(1));
        assert(seq![".Infrastructure", ".Persistence", ".Adapters"].map_values(|h: &str| h@)
            =~= layer_hints(2));
        assert(seq![".Api", ".Web", ".Host"].map_values(|h: &str| h@) =~= layer_hints(3));
        assert(s0 == kind_score(ns, 0));
        assert(s1 == kind_score(ns, 1));
        assert(s2 == kind_score(ns, 2));
        assert(s3 == kind_score(ns, 3));
    }
    let scores = [s0, s1, s2, s3];
    let mut best: usize = 4;
    let mut best_score: usize = 0;
    let mut k: usize = 0;
    while k < 4
        invariant
            k <= 4,
            scores@ == seq![s0, s1, s2, s3],
            forall|q: int| 0 <= q < 4 ==> scores@[q] == kind_score(ns, q),
            best <= 4,
            best == 4 <==> choose_best(ns, k as int) < 0,
            -1 <= choose_best(ns, k as int) < k,
            best < 4 ==> best == choose_best(ns, k as int) && best_score == kind_score(ns, best as int),
        decreases 4 - k,
    {
        let s = scores[k];
        proof {
            assert(s == kind_score(ns, k as int));
            assert(choose_best(ns, k + 1) == {
                let prev = choose_best(ns, k as int);
                if s > 0 && (prev < 0 || s >= kind_score(ns, prev)) {
                    k as int
                } else {
                    prev
                }
            });
        }
        if s > 0 && (best == 4 || s >= best_score) {
            best = k;
            best_score = s;
        }
        k = k + 1;
    }
    if best == 0 {
        "Domain"
    } else if best == 1 {
        "Application"
    } else if best == 2 {
        "Infrastructure"
    } else if best == 3 {
        "Presentation"
    } else {
        "Layer"
    }
}

/// The first `n` projects without the test projects, in order.
pub open spec fn non_tests_upto(ps: Seq<ProjectFile>, n: nat) -> Seq<ProjectFile>
    decreases n,
{
    if n == 0 {
        Seq::empty()
    } else if is_test_name(ps[n - 1].name@) {
        non_tests_upto(ps, (n - 1) as nat)
    } else {
        non_tests_upto(ps, (n - 1) as nat).push(ps[n - 1])
    }
}

/// The projects that are not test projects, in order.
pub open spec fn non_tests(ps: Seq<ProjectFile>) -> Seq<ProjectFile> {
    non_tests_upto(ps, ps.len())
}

/// The names of the test projects among the first `n`, in order.
pub open spec fn test_names_upto(ps: Seq<ProjectFile>, n: nat) -> Seq<Seq<char>>
    decreases n,
{
    if n == 0 {
        Seq::empty()
    } else if is_test_name(ps[n - 1].name@) {
        test_names_upto(ps, (n - 1) as nat).push(ps[n - 1].name@)
    } else {
        test_names_upto(ps, (n - 1) as nat)
    }
}

/// The names of the test projects, in order.
pub open spec fn test_names(ps: Seq<ProjectFile>) -> Seq<Seq<char>> {
    test_names_upto(ps, ps.len())
}

/// The edges of the first `k` references of `p` to projects of the solution: from the node
/// of `p`'s name to the node of the target, each the last node of its name.
pub open spec fn ref_edges(p: ProjectFile, names: Seq<Seq<char>>, k: nat) -> Seq<(int, int)>
    decreases k,
{
    if k == 0 {
        Seq::empty()
    } else {
        let prev = ref_edges(p, names, (k - 1) as nat);
        let t = ref_names(p)[k - 1];
        if names.contains(t) {
            prev.push((last_index_of(names, p.name@), last_index_of(names, t)))
        } else {
            prev
        }
    }
}

/// The edges of the references of the first `n` projects, in order.
pub open spec fn scan_edges(nt: Seq<ProjectFile>, names: Seq<Seq<char>>, n: nat) -> Seq<(int, int)>
    decreases n,
{
    if n == 0 {
        Seq::empty()
    } else {
        scan_edges(nt, names, (n - 1) as nat) + ref_edges(
            nt[n - 1],
            names,
            nt[n - 1].project_refs@.len(),
        )
    }
}

/// The dependency graph's edges of the projects of the solution that are not test projects.
pub open spec fn scan_graph_edges(ps: Seq<ProjectFile>) -> Seq<(int, int)> {
    let nt = non_tests(ps);
    scan_edges(nt, project_names(nt), nt.len())
}

/// The names of the nodes `c`.
pub open spec fn node_group(c: Seq<int>, names: Seq<Seq<char>>) -> Seq<Seq<char>> {
    c.map_values(|i: int| names[i])
}

/// The components among the first `k` with more than one node, as names.
pub open spec fn cycle_groups(comps: Seq<Seq<int>>, names: Seq<Seq<char>>, k: nat) -> Seq<
    Seq<Seq<char>>,
>
    decreases k,
{
    if k == 0 {
        Seq::empty()
    } else if comps[k - 1].len() > 1 {
        cycle_groups(comps, names, (k - 1) as nat).push(node_group(comps[k - 1], names))
    } else {
        cycle_groups(comps, names, (k - 1) as nat)
    }
}

/// One of `refs` is a project of the solution.
pub open spec fn refers_into(refs: Seq<Seq<char>>, names: Seq<Seq<char>>) -> bool {
    exists|j: int| 0 <= j < refs.len() && names.contains(#[trigger] refs[j])
}

/// One of the projects references `x`.
pub open spec fn referenced(nt: Seq<ProjectFile>, x: Seq<char>) -> bool {
    exists|i: int, j: int|
        0 <= i < nt.len() && 0 <= j < nt[i].project_refs@.len() && #[trigger] ref_names(nt[i])[j]
            == x
}

/// The names of the first `k` projects that neither reference a project of the solution nor
/// are referenced by one.
pub open spec fn isolated_upto(nt: Seq<ProjectFile>, names: Seq<Seq<char>>, k: nat) -> Seq<
    Seq<char>,
>
    decreases k,
{
    if k == 0 {
        Seq::empty()
    } else {
        let prev = isolated_upto(nt, names, (k - 1) as nat);
        let p = nt[k - 1];
        if !refers_into(ref_names(p), names) && !referenced(nt, p.name@) {
            prev.push(p.name@)
        } else {
            prev
        }
    }
}

/// What a scan finds, given the strongly connected components of the dependency graph of
/// the projects that are not test projects: the tier buckets, the isolated projects, the
/// test projects, and the cycles.
pub open spec fn scan_outcome(ps: Seq<ProjectFile>, comps: Seq<Seq<int>>) -> (
    Seq<Seq<Seq<char>>>,
    Seq<Seq<char>>,
    Seq<Seq<char>>,
    Seq<Seq<Seq<char>>>,
) {
    let nt = non_tests(ps);
    let names = project_names(nt);
    let cycles = cycle_groups(comps, names, comps.len());
    let placed = place_cycles(settled_tiers(nt, names, cycles), nt, cycles, cycles.len());
    (buckets(placed), isolated_upto(nt, names, nt.len()), test_names(ps), cycles)
}

/// The value of a scan result.
pub open spec fn scan_view(r: ScanResult) -> (
    Seq<Seq<Seq<char>>>,
    Seq<Seq<char>>,
    Seq<Seq<char>>,
    Seq<Seq<Seq<char>>>,
) {
    (group_views(r.tiers@), string_views(r.isolated@), string_views(r.test_projects@), group_views(
        r.cycles@,
    ))
}

proof fn lemma_strings_push(s: Seq<String>, x: String)
    ensures
        string_views(s.push(x)) == string_views(s).push(x@),
{
    assert(string_views(s.push(x)) =~= string_views(s).push(x@));
}

/// Splits the projects into the positions of those that are not test projects and the names
/// of those that are.
fn split_tests(ps: &[ProjectFile]) -> (r: (Vec<usize>, Vec<String>))
    ensures
        picked(ps@, r.0@) == non_tests(ps@),
        string_views(r.1@) == test_names(ps@),
        forall|k: int| 0 <= k < r.0@.len() ==> (#[trigger] r.0@[k]) < ps@.len(),
        r.0@.len() <= ps@.len(),
{
    let mut idx: Vec<usize> = Vec::new();
    let mut tests: Vec<String> = Vec::new();
    let mut i: usize = 0;
    while i < ps.len()
        invariant
            i <= ps@.len(),
            picked(ps@, idx@) == non_tests_upto(ps@, i as nat),
            string_views(tests@) == test_names_upto(ps@, i as nat),
            forall|k: int| 0 <= k < idx@.len() ==> (#[trigger] idx@[k]) < i,
            idx@.len() <= i,
        decreases ps@.len() - i,
    {
        if is_test_project(ps[i].name.as_str()) {
            let ghost prev = tests@;
            tests.push(ps[i].name.clone());
            proof {
                lemma_strings_push(prev, ps@[i as int].name);
            }
        } else {
            let ghost prev = idx@;
            idx.push(i);
            proof {
                assert(picked(ps@, idx@) =~= picked(ps@, prev).push(ps@[i as int]));
            }
        }
        i = i + 1;
    }
    (idx, tests)
}

/// The names of the picked projects, in order.
fn names_of(ps: &[ProjectFile], idx: &Vec<usize>) -> (r: Vec<String>)
    requires
        forall|k: int| 0 <= k < idx@.len() ==> (#[trigger] idx@[k]) < ps@.len(),
    ensures
        string_views(r@) == project_names(picked(ps@, idx@)),
{
    let ghost nt = picked(ps@, idx@);
    let mut out: Vec<String> = Vec::new();
    let mut i: usize = 0;
    while i < idx.len()
        invariant
            i <= idx@.len(),
            nt == picked(ps@, idx@),
            forall|k: int| 0 <= k < idx@.len() ==> (#[trigger] idx@[k]) < ps@.len(),
            string_views(out@) == project_names(nt.take(i as int)),
        decreases idx@.len() - i,
    {
        let ghost prev = out@;
        out.push(ps[idx[i]].name.clone());
        proof {
            lemma_strings_push(prev, ps@[idx@[i as int] as int].name);
            assert(project_names(nt.take(i + 1)) =~= project_names(nt.take(i as int)).push(
                nt[i as int].name@,
            ));
        }
        i = i + 1;
    }
    proof {
        assert(nt.take(idx@.len() as int) =~= nt);
    }
    out
}

/// The components with more than one node, as names.
fn cycles_of(components: &[Vec<usize>], names: &Vec<String>) -> (r: Vec<Vec<String>>)
    requires
        forall|i: int, j: int|
            0 <= i < components@.len() && 0 <= j < components@[i]@.len() ==> #[trigger] components@[i]@[j]
                < names@.len(),
    ensures
        group_views(r@) == cycle_groups(
            component_views(components@),
            string_views(names@),
            components@.len(),
        ),
        r@.len() <= components@.len(),
{
    let ghost cv = component_views(components@);
    let ghost nv = string_views(names@);
    let mut out: Vec<Vec<String>> = Vec::new();
    let mut k: usize = 0;
    while k < components.len()
        invariant
            k <= components@.len(),
            cv == component_views(components@),
            nv == string_views(names@),
            forall|i: int, j: int|
                0 <= i < components@.len() && 0 <= j < components@[i]@.len()
                    ==> #[trigger] components@[i]@[j] < names@.len(),
            group_views(out@) == cycle_groups(cv, nv, k as nat),
            out@.len() <= k,
        decreases components@.len() - k,
    {
        let comp = &components[k];
        proof {
            assert(cv[k as int] == comp@.map_values(|i: usize| i as int));
        }
        if comp.len() > 1 {
            let mut group: Vec<String> = Vec::new();
            let mut j: usize = 0;
            while j < comp.len()
                invariant
                    j <= comp@.len(),
                    comp == components@[k as int],
                    cv[k as int] == comp@.map_values(|i: usize| i as int),
                    nv == string_views(names@),
                    forall|q: int| 0 <= q < comp@.len() ==> #[trigger] comp@[q] < names@.len(),
                    string_views(group@) == node_group(cv[k as int].take(j as int), nv),
                decreases comp@.len() - j,
            {
                let ghost prev = group@;
                group.push(names[comp[j]].clone());
                proof {
                    lemma_strings_push(prev, names@[comp@[j as int] as int]);
                    assert(node_group(cv[k as int].take(j + 1), nv) =~= node_group(
                        cv[k as int].take(j as int),
                        nv,
                    ).push(nv[comp@[j as int] as int]));
                }
                j = j + 1;
            }
            proof {
                assert(cv[k as int].take(comp@.len() as int) =~= cv[k as int]);
            }
            let ghost prev = out@;
            out.push(group);
            proof {
                assert(group_views(out@) =~= group_views(prev).push(string_views(group@)));
            }
        }
        k = k + 1;
    }
    out
}

/// Whether one of the references of `p` points to a project of the solution.
fn refers_into_names(p: &ProjectFile, names: &Vec<String>) -> (r: bool)
    ensures
        r == refers_into(ref_names(*p), string_views(names@)),
{
    let ghost refs = ref_names(*p);
    let ghost nv = string_views(names@);
    let mut j: usize = 0;
    while j < p.project_refs.len()
        invariant
            j <= p.project_refs@.len(),
            refs == ref_names(*p),
            nv == string_views(names@),
            forall|q: int| 0 <= q < j ==> !nv.contains(#[trigger] refs[q]),
        decreases p.project_refs@.len() - j,
    {
        let t = graph_target(&p.project_refs[j]);
        if contains_name(names, t.as_str()) {
            proof {
                assert(refs[j as int] == t@);
            }
            return true;
        }
        j = j + 1;
    }
    false
}

/// Whether one of the picked projects references `x`.
fn is_referenced(ps: &[ProjectFile], idx: &Vec<usize>, x: &str) -> (r: bool)
    requires
        forall|k: int| 0 <= k < idx@.len() ==> (#[trigger] idx@[k]) < ps@.len(),
    ensures
        r == referenced(picked(ps@, idx@), x@),
{
    let ghost nt = picked(ps@, idx@);
    let mut i: usize = 0;
    while i < idx.len()
        invariant
            i <= idx@.len(),
            nt == picked(ps@, idx@),
            forall|k: int| 0 <= k < idx@.len() ==> (#[trigger] idx@[k]) < ps@.len(),
            forall|a: int, j: int|
                0 <= a < i && 0 <= j < nt[a].project_refs@.len() ==> #[trigger] ref_names(nt[a])[j]
                    != x@,
        decreases idx@.len() - i,
    {
        let p = &ps[idx[i]];
        proof {
            assert(nt[i as int] == *p);
        }
        let mut j: usize = 0;
        while j < p.project_refs.len()
            invariant
                j <= p.project_refs@.len(),
                i < idx@.len(),
                nt == picked(ps@, idx@),
                nt.len() == idx@.len(),
                nt[i as int] == *p,
                forall|q: int| 0 <= q < j ==> #[trigger] ref_names(*p)[q] != x@,
            decreases p.project_refs@.len() - j,
        {
            let t = graph_target(&p.project_refs[j]);
            if str_eq(t.as_str(), x) {
                proof {
                    assert(ref_names(nt[i as int])[j as int] == x@);
                }
                return true;
            }
            j = j + 1;
        }
        i = i + 1;
    }
    false
}

/// The names of the picked projects that neither reference a project of the solution nor are
/// referenced by one.
fn isolated_of(ps: &[ProjectFile], idx: &Vec<usize>, names: &Vec<String>) -> (r: Vec<String>)
    requires
        forall|k: int| 0 <= k < idx@.len() ==> (#[trigger] idx@[k]) < ps@.len(),
    ensures
        string_views(r@) == isolated_upto(picked(ps@, idx@), string_views(names@), idx@.len()),
{
    let ghost nt = picked(ps@, idx@);
    let mut out: Vec<String> = Vec::new();
    let mut i: usize = 0;
    while i < idx.len()
        invariant
            i <= idx@.len(),
            nt == picked(ps@, idx@),
            forall|k: int| 0 <= k < idx@.len() ==> (#[trigger] idx@[k]) < ps@.len(),
            string_views(out@) == isolated_upto(nt, string_views(names@), i as nat),
        decreases idx@.len() - i,
    {
        let p = &ps[idx[i]];
        proof {
            assert(nt[i as int] == *p);
        }
        if !refers_into_names(p, names) && !is_referenced(ps, idx, p.name.as_str()) {
            let ghost prev = out@;
            out.push(p.name.clone());
            proof {
                lemma_strings_push(prev, p.name);
            }
        }
        i = i + 1;
    }
    out
}

/// Scans a solution given the strongly connected components of the dependency graph of its
/// projects that are not test projects (node `i` is the `i`-th of them): tiers the projects
/// bottom-up, places the cycles, and lists the isolated and the test projects.
pub fn scan_from_components(projects: &[ProjectFile], components: &[Vec<usize>]) -> (r: ScanResult)
    requires
        forall|i: int, j: int|
            0 <= i < components@.len() && 0 <= j < components@[i]@.len() ==> #[trigger] components@[i]@[j]
                < non_tests(projects@).len(),
        projects@.len() + components@.len() < usize::MAX,
    ensures
        scan_view(r) == scan_outcome(projects@, component_views(components@)),
{
    let (idx, tests) = split_tests(projects);
    let names = names_of(projects, &idx);
    proof {
        assert(picked(projects@, idx@).len() == idx@.len());
        assert(string_views(names@).len() == names@.len());
        assert(names@.len() == non_tests(projects@).len());
    }
    let cycles = cycles_of(components, &names);
    let mut m = settle_tiers(projects, &idx, &names, &cycles);
    let bound = idx.len();
    proof {
        assert forall|k: int| 0 <= k < m@.len() implies (#[trigger] m@[k]).1 <= bound by {}
    }
    place_cycle_groups(projects, &idx, &cycles, &mut m, bound);
    let tiers = tier_buckets(&m, bound + cycles.len());
    let isolated = isolated_of(projects, &idx, &names);
    ScanResult { tiers, isolated, test_projects: tests, cycles }
}

/// The node of the last project named `x`.
fn last_index(names: &Vec<String>, x: &str) -> (r: usize)
    requires
        string_views(names@).contains(x@),
    ensures
        r as int == last_index_of(string_views(names@), x@),
        r < names@.len(),
{
    let ghost nv = string_views(names@);
    proof {
        lemma_last_index_of(nv, x@);
    }
    let mut j: usize = names.len();
    while j > 0 && !str_eq(names[j - 1].as_str(), x)
        invariant
            j <= names@.len(),
            nv == string_views(names@),
            forall|k: int| j <= k < nv.len() ==> nv[k] != x@,
            nv.contains(x@),
        decreases j,
    {
        j = j - 1;
    }
    proof {
        let l = last_index_of(nv, x@);
        if j == 0 {
            let k = choose|k: int| 0 <= k < nv.len() && nv[k] == x@;
            assert(nv[k] != x@);
        }
        assert(nv[j - 1] == x@);
        if l > j - 1 {
            assert(nv[l] == x@);
        }
        if l < j - 1 {
            assert(nv[j - 1] != x@);
        }
    }
    j - 1
}

proof fn lemma_ref_count_push(s: Seq<ProjectFile>, x: ProjectFile, k: nat)
    requires
        k <= s.len(),
    ensures
        ref_count(s.push(x), k) == ref_count(s, k),
    decreases k,
{
    if k > 0 {
        lemma_ref_count_push(s, x, (k - 1) as nat);
    }
}

proof fn lemma_non_tests_refs(ps: Seq<ProjectFile>, n: nat)
    requires
        n <= ps.len(),
    ensures
        ref_count(non_tests_upto(ps, n), non_tests_upto(ps, n).len()) <= ref_count(ps, n),
    decreases n,
{
    if n > 0 {
        lemma_non_tests_refs(ps, (n - 1) as nat);
        let prev = non_tests_upto(ps, (n - 1) as nat);
        if !is_test_name(ps[n - 1].name@) {
            lemma_ref_count_push(prev, ps[n - 1], prev.len());
        }
    }
}

proof fn lemma_ref_edges_len(p: ProjectFile, names: Seq<Seq<char>>, k: nat)
    ensures
        ref_edges(p, names, k).len() <= k,
    decreases k,
{
    if k > 0 {
        lemma_ref_edges_len(p, names, (k - 1) as nat);
    }
}

proof fn lemma_scan_edges_len(nt: Seq<ProjectFile>, names: Seq<Seq<char>>, n: nat)
    ensures
        scan_edges(nt, names, n).len() <= ref_count(nt, n),
    decreases n,
{
    if n > 0 {
        lemma_scan_edges_len(nt, names, (n - 1) as nat);
        lemma_ref_edges_len(nt[n - 1], names, nt[n - 1].project_refs@.len());
    }
}

/// Scans a solution: builds the dependency graph of the projects that are not test projects
/// (one node per project, one edge per reference to one of them), finds its strongly
/// connected components with `petgraph`, and goes on as `scan_from_components`.
pub fn scan(projects: &[ProjectFile]) -> (r: ScanResult)
    requires
        projects@.len() + ref_count(projects@, projects@.len()) < u32::MAX,
        projects@.len() < usize::MAX / 2,
    ensures
        scan_view(r) == scan_outcome(
            projects@,
            tarjan_components(non_tests(projects@).len(), scan_graph_edges(projects@)),
        ),
{
    let (idx, _tests) = split_tests(projects);
    let names = names_of(projects, &idx);
    let ghost nt = picked(projects@, idx@);
    let ghost nv = string_views(names@);
    proof {
        assert(nt.len() == idx@.len());
        assert(nv.len() == names@.len());
        lemma_non_tests_refs(projects@, projects@.len());
    }
    let mut g = graph_new();
    let mut i: usize = 0;
    while i < names.len()
        invariant
            i <= names@.len(),
            nv == string_views(names@),
            names@.len() <= projects@.len(),
            projects@.len() + ref_count(projects@, projects@.len()) < u32::MAX,
            graph_nodes(g) == nv.take(i as int),
            graph_edges(g) == Seq::<(int, int)>::empty(),
        decreases names@.len() - i,
    {
        graph_add_node(&mut g, names[i].clone());
        proof {
            assert(graph_nodes(g) =~= nv.take(i + 1));
        }
        i = i + 1;
    }
    proof {
        assert(nv.take(names@.len() as int) =~= nv);
    }
    let mut i: usize = 0;
    while i < idx.len()
        invariant
            i <= idx@.len(),
            nt == picked(projects@, idx@),
            nt.len() == idx@.len(),
            nv == string_views(names@),
            nv == project_names(nt),
            forall|k: int| 0 <= k < idx@.len() ==> (#[trigger] idx@[k]) < projects@.len(),
            ref_count(nt, nt.len()) <= ref_count(projects@, projects@.len()),
            projects@.len() + ref_count(projects@, projects@.len()) < u32::MAX,
            graph_nodes(g) == nv,
            graph_edges(g) == scan_edges(nt, nv, i as nat),
        decreases idx@.len() - i,
    {
        let p = &projects[idx[i]];
        proof {
            assert(nt[i as int] == *p);
            assert(nv[i as int] == p.name@);
        }
        let ghost base = graph_edges(g);
        let mut j: usize = 0;
        while j < p.project_refs.len()
            invariant
                j <= p.project_refs@.len(),
                i < idx@.len(),
                nt == picked(projects@, idx@),
                nt.len() == idx@.len(),
                nt[i as int] == *p,
                nv == string_views(names@),
                nv == project_names(nt),
                nv[i as int] == p.name@,
                ref_count(nt, nt.len()) <= ref_count(projects@, projects@.len()),
                projects@.len() + ref_count(projects@, projects@.len()) < u32::MAX,
                base == scan_edges(nt, nv, i as nat),
                graph_nodes(g) == nv,
                graph_edges(g) == base + ref_edges(*p, nv, j as nat),
            decreases p.project_refs@.len() - j,
        {
            let t = graph_target(&p.project_refs[j]);
            proof {
                assert(ref_names(*p)[j as int] == t@);
            }
            if contains_name(&names, t.as_str()) {
                let a = last_index(&names, p.name.as_str());
                let b = last_index(&names, t.as_str());
                proof {
                    lemma_scan_edges_len(nt, nv, i as nat);
                    lemma_ref_edges_len(*p, nv, j as nat);
                    lemma_scan_edges_len(nt, nv, i as nat + 1);
                    assert(scan_edges(nt, nv, i as nat + 1) == base + ref_edges(
                        *p,
                        nv,
                        p.project_refs@.len(),
                    ));
                    lemma_scan_edges_prefix(nt, nv, i as nat + 1, nt.len());
                    lemma_scan_edges_len(nt, nv, nt.len());
                    lemma_ref_edges_prefix(*p, nv, j as nat + 1, p.project_refs@.len());
                    assert(ref_edges(*p, nv, j as nat + 1).len() == ref_edges(*p, nv, j as nat).len()
                        + 1);
                }
                graph_add_edge(&mut g, a, b);
                proof {
                    assert(graph_edges(g) =~= base + ref_edges(*p, nv, j as nat + 1));
                }
            }
            j = j + 1;
        }
        proof {
            assert(graph_edges(g) =~= scan_edges(nt, nv, i as nat + 1));
        }
        i = i + 1;
    }
    let comps = graph_components(&g);
    proof {
        assert(graph_edges(g) == scan_graph_edges(projects@));
    }
    scan_from_components(projects, &comps)
}

proof fn lemma_ref_edges_prefix(p: ProjectFile, names: Seq<Seq<char>>, j: nat, k: nat)
    requires
        j <= k,
    ensures
        ref_edges(p, names, j).len() <= ref_edges(p, names, k).len(),
    decreases k,
{
    if k > j {
        lemma_ref_edges_prefix(p, names, j, (k - 1) as nat);
    }
}

proof fn lemma_scan_edges_prefix(nt: Seq<ProjectFile>, names: Seq<Seq<char>>, j: nat, k: nat)
    requires
        j <= k,
    ensures
        scan_edges(nt, names, j).len() <= scan_edges(nt, names, k).len(),
    decreases k,
{
    if k > j {
        lemma_scan_edges_prefix(nt, names, j, (k - 1) as nat);
    }
}

/// The last of the first `i` layers that holds `x`, or -1.
pub open spec fn layer_of_upto(layers: Seq<LayerDef>, x: Seq<char>, i: nat) -> int
    decreases i,
{
    if i == 0 {
        -1
    } else if string_views(layers[i - 1].projects@).contains(x) {
        i - 1
    } else {
        layer_of_upto(layers, x, (i - 1) as nat)
    }
}

/// The layer of project `x`: the last layer that holds it, or -1.
pub open spec fn layer_of(layers: Seq<LayerDef>, x: Seq<char>) -> int {
    layer_of_upto(layers, x, layers.len())
}

/// The (from, to) layer pairs of the first `k` references of `p` that cross between two
/// layers.
pub open spec fn crossing_refs(layers: Seq<LayerDef>, p: ProjectFile, k: nat) -> Seq<(int, int)>
    decreases k,
{
    if k == 0 {
        Seq::empty()
    } else {
        let prev = crossing_refs(layers, p, (k - 1) as nat);
        let from = layer_of(layers, p.name@);
        let to = layer_of(layers, ref_names(p)[k - 1]);
        if from >= 0 && to >= 0 && from != to {
            prev.push((from, to))
        } else {
            prev
        }
    }
}

/// The layer pairs of the references of the first `n` projects that cross between two
/// layers, in order.
pub open spec fn crossings(layers: Seq<LayerDef>, ps: Seq<ProjectFile>, n: nat) -> Seq<(int, int)>
    decreases n,
{
    if n == 0 {
        Seq::empty()
    } else {
        crossings(layers, ps, (n - 1) as nat) + crossing_refs(
            layers,
            ps[n - 1],
            ps[n - 1].project_refs@.len(),
        )
    }
}

/// Whether tally entry `i` counts pair `x`.
pub open spec fn counts_pair(t: Seq<(int, int, int)>, x: (int, int)) -> spec_fn(int) -> bool {
    |i: int| t[i].0 == x.0 && t[i].1 == x.1
}

/// The tally with one more reference for pair `x`.
pub open spec fn tally_add(t: Seq<(int, int, int)>, x: (int, int)) -> Seq<(int, int, int)> {
    match first_index(t.len(), counts_pair(t, x)) {
        Some(i) => t.update(i, (x.0, x.1, t[i].2 + 1)),
        None => t.push((x.0, x.1, 1)),
    }
}

/// Each distinct pair among the first `n` of `s`, in order of first appearance, with how
/// often it appears.
pub open spec fn tally(s: Seq<(int, int)>, n: nat) -> Seq<(int, int, int)>
    decreases n,
{
    if n == 0 {
        Seq::empty()
    } else {
        tally_add(tally(s, (n - 1) as nat), s[n - 1])
    }
}

/// Entry `a` comes before entry `b`: by the name of the source layer, then of the target
/// layer, then by the layer positions.
pub open spec fn edge_before(layers: Seq<LayerDef>, a: (int, int, int), b: (int, int, int)) -> bool {
    let af = layers[a.0].name@;
    let at = layers[a.1].name@;
    let bf = layers[b.0].name@;
    let bt = layers[b.1].name@;
    ||| chars_lt(af, bf)
    ||| af == bf && chars_lt(at, bt)
    ||| af == bf && at == bt && (a.0 < b.0 || (a.0 == b.0 && a.1 < b.1))
}

/// Whether `x` comes before entry `i` of `s`.
pub open spec fn goes_before(layers: Seq<LayerDef>, s: Seq<(int, int, int)>, x: (int, int, int)) -> spec_fn(
    int,
) -> bool {
    |i: int| edge_before(layers, x, s[i])
}

/// `s` with `x` inserted before the first entry that it comes before.
pub open spec fn insert_edge(layers: Seq<LayerDef>, s: Seq<(int, int, int)>, x: (int, int, int)) -> Seq<
    (int, int, int),
> {
    match first_index(s.len(), goes_before(layers, s, x)) {
        Some(i) => s.insert(i, x),
        None => s.push(x),
    }
}

/// The entries of `s` in order: each inserted, in turn, at its place.
pub open spec fn sort_edges(layers: Seq<LayerDef>, s: Seq<(int, int, int)>) -> Seq<(int, int, int)>
    decreases s.len(),
{
    if s.len() == 0 {
        s
    } else {
        insert_edge(layers, sort_edges(layers, s.drop_last()), s.last())
    }
}

/// The value of an inter-layer edge.
pub open spec fn edge_view(e: InterLayerEdge) -> (Seq<char>, Seq<char>, int, bool) {
    (e.from@, e.to@, e.ref_count as int, e.unusual)
}

/// The values of a sequence of inter-layer edges.
pub open spec fn edge_views(s: Seq<InterLayerEdge>) -> Seq<(Seq<char>, Seq<char>, int, bool)> {
    s.map_values(|e: InterLayerEdge| edge_view(e))
}

/// The dependencies between the layers: for each pair of different layers that references
/// cross, the names, the number of references, and whether a lower layer depends on a
/// higher one; sorted by source name, then target name.
pub open spec fn layer_edges(layers: Seq<LayerDef>, ps: Seq<ProjectFile>) -> Seq<
    (Seq<char>, Seq<char>, int, bool),
> {
    let c = crossings(layers, ps, ps.len());
    let sorted = sort_edges(layers, tally(c, c.len()));
    sorted.map_values(
        |e: (int, int, int)| (layers[e.0].name@, layers[e.1].name@, e.2, e.0 < e.1),
    )
}

/// The layer of project `x`.
fn layer_index(layers: &[LayerDef], x: &str) -> (r: Option<usize>)
    ensures
        r is None <==> layer_of(layers@, x@) == -1,
        r is Some ==> r.unwrap() as int == layer_of(layers@, x@) && r.unwrap() < layers@.len(),
{
    let mut found: Option<usize> = None;
    let mut i: usize = 0;
    while i < layers.len()
        invariant
            i <= layers@.len(),
            found is None <==> layer_of_upto(layers@, x@, i as nat) == -1,
            found is Some ==> found.unwrap() as int == layer_of_upto(layers@, x@, i as nat)
                && found.unwrap() < i,
            -1 <= layer_of_upto(layers@, x@, i as nat) < i,
        decreases layers@.len() - i,
    {
        if contains_name(&layers[i].projects, x) {
            found = Some(i);
        }
        i = i + 1;
    }
    found
}

/// The values of a tally held as machine integers.
pub open spec fn tally_view(t: Seq<(usize, usize, usize)>) -> Seq<(int, int, int)> {
    t.map_values(|e: (usize, usize, usize)| (e.0 as int, e.1 as int, e.2 as int))
}

/// Counts one more reference for the pair (`from`, `to`).
fn tally_bump(t: &mut Vec<(usize, usize, usize)>, from: usize, to: usize, bound: usize)
    requires
        forall|k: int| 0 <= k < old(t)@.len() ==> (#[trigger] old(t)@[k]).2 < bound,
        bound >= 1,
    ensures
        tally_view(final(t)@) == tally_add(tally_view(old(t)@), (from as int, to as int)),
        forall|k: int| 0 <= k < final(t)@.len() ==> (#[trigger] final(t)@[k]).2 <= bound,
        forall|k: int|
            0 <= k < final(t)@.len() ==> ((#[trigger] final(t)@[k]).0 == from && final(t)@[k].1 == to)
                || (k < old(t)@.len() && final(t)@[k].0 == old(t)@[k].0 && final(t)@[k].1
                == old(t)@[k].1),
{
    let ghost tv = tally_view(t@);
    let ghost p = counts_pair(tv, (from as int, to as int));
    let mut i: usize = 0;
    while i < t.len() && !(t[i].0 == from && t[i].1 == to)
        invariant
            i <= t@.len(),
            tv == tally_view(t@),
            p == counts_pair(tv, (from as int, to as int)),
            first_index(i as nat, p) is None,
        decreases t@.len() - i,
    {
        proof {
            lemma_first_index_step(i as nat, p);
        }
        i = i + 1;
    }
    proof {
        lemma_first_index(t@.len() as nat, p);
        if i < t@.len() {
            lemma_first_index_step(i as nat, p);
            lemma_first_index_grows(i as nat + 1, t@.len() as nat, p);
        }
    }
    let ghost before = t@;
    assert(before == old(t)@);
    if i < t.len() {
        let e = t[i];
        proof {
            assert(before[i as int].2 < bound);
        }
        t.set(i, (e.0, e.1, e.2 + 1));
        proof {
            assert(tally_view(t@) =~= tally_add(tv, (from as int, to as int)));
            assert forall|k: int| 0 <= k < t@.len() implies (#[trigger] t@[k]).2 <= bound by {
                if k != i {
                    assert(t@[k] == before[k]);
                    assert(old(t)@[k].2 < bound);
                } else {
                    assert(t@[k].2 == e.2 + 1);
                }
            }
        }
    } else {
        t.push((from, to, 1));
        proof {
            assert(tally_view(t@) =~= tally_add(tv, (from as int, to as int)));
            assert forall|k: int| 0 <= k < t@.len() implies (#[trigger] t@[k]).2 <= bound by {
                if k < before.len() {
                    assert(t@[k] == before[k]);
                    assert(old(t)@[k].2 < bound);
                }
            }
        }
    }
}

/// Once `first_index` has found an index, looking further finds the same one.
proof fn lemma_first_index_grows(a: nat, b: nat, p: spec_fn(int) -> bool)
    requires
        a <= b,
        first_index(a, p) is Some,
    ensures
        first_index(b, p) == first_index(a, p),
    decreases b,
{
    if b > a {
        lemma_first_index_grows(a, (b - 1) as nat, p);
    }
}

proof fn lemma_tally_push(s: Seq<(int, int)>, x: (int, int), k: nat)
    requires
        k <= s.len(),
    ensures
        tally(s.push(x), k) == tally(s, k),
    decreases k,
{
    if k > 0 {
        lemma_tally_push(s, x, (k - 1) as nat);
    }
}

proof fn lemma_crossing_refs_len(layers: Seq<LayerDef>, p: ProjectFile, k: nat)
    ensures
        crossing_refs(layers, p, k).len() <= k,
    decreases k,
{
    if k > 0 {
        lemma_crossing_refs_len(layers, p, (k - 1) as nat);
    }
}

proof fn lemma_crossings_len(layers: Seq<LayerDef>, ps: Seq<ProjectFile>, n: nat)
    ensures
        crossings(layers, ps, n).len() <= ref_count(ps, n),
    decreases n,
{
    if n > 0 {
        lemma_crossings_len(layers, ps, (n - 1) as nat);
        lemma_crossing_refs_len(layers, ps[n - 1], ps[n - 1].project_refs@.len());
    }
}

proof fn lemma_ref_count_mono(ps: Seq<ProjectFile>, a: nat, b: nat)
    requires
        a <= b,
    ensures
        ref_count(ps, a) <= ref_count(ps, b),
    decreases b,
{
    if b > a {
        lemma_ref_count_mono(ps, a, (b - 1) as nat);
    }
}

/// Whether entry `a` comes before entry `b`.
fn edge_goes_before(layers: &[LayerDef], a: (usize, usize, usize), b: (usize, usize, usize)) -> (r:
    bool)
    requires
        a.0 < layers@.len(),
        a.1 < layers@.len(),
        b.0 < layers@.len(),
        b.1 < layers@.len(),
    ensures
        r == edge_before(
            layers@,
            (a.0 as int, a.1 as int, a.2 as int),
            (b.0 as int, b.1 as int, b.2 as int),
        ),
{
    let af = layers[a.0].name.as_str();
    let at = layers[a.1].name.as_str();
    let bf = layers[b.0].name.as_str();
    let bt = layers[b.1].name.as_str();
    str_lt(af, bf) || (str_eq(af, bf) && str_lt(at, bt)) || (str_eq(af, bf) && str_eq(at, bt) && (
    a.0 < b.0 || (a.0 == b.0 && a.1 < b.1)))
}

/// Inserts `x` before the first entry of `out` that it comes before.
fn insert_edge_entry(layers: &[LayerDef], out: &mut Vec<(usize, usize, usize)>, x: (usize, usize, usize))
    requires
        x.0 < layers@.len(),
        x.1 < layers@.len(),
        forall|k: int|
            0 <= k < old(out)@.len() ==> (#[trigger] old(out)@[k]).0 < layers@.len() && old(out)@[k].1
                < layers@.len(),
    ensures
        tally_view(final(out)@) == insert_edge(
            layers@,
            tally_view(old(out)@),
            (x.0 as int, x.1 as int, x.2 as int),
        ),
        forall|k: int|
            0 <= k < final(out)@.len() ==> (#[trigger] final(out)@[k]).0 < layers@.len()
                && final(out)@[k].1 < layers@.len(),
{
    let ghost ov = tally_view(out@);
    let ghost xv = (x.0 as int, x.1 as int, x.2 as int);
    let ghost p = goes_before(layers@, ov, xv);
    let mut i: usize = 0;
    let mut found = false;
    while i < out.len() && !found
        invariant
            i <= out@.len(),
            ov == tally_view(out@),
            p == goes_before(layers@, ov, xv),
            xv == (x.0 as int, x.1 as int, x.2 as int),
            x.0 < layers@.len(),
            x.1 < layers@.len(),
            forall|k: int|
                0 <= k < out@.len() ==> (#[trigger] out@[k]).0 < layers@.len() && out@[k].1
                    < layers@.len(),
            found ==> i < out@.len() && first_index(out@.len() as nat, p) == Some(i as int),
            !found ==> first_index(i as nat, p) is None,
        decreases out@.len() - i + if found {
            0int
        } else {
            1int
        },
    {
        let b = edge_goes_before(layers, x, out[i]);
        proof {
            assert(ov[i as int] == (out@[i as int].0 as int, out@[i as int].1 as int, out@[
                i as int
            ].2 as int));
            let e = out@[i as int];
            assert(b == edge_before(layers@, (x.0 as int, x.1 as int, x.2 as int), (e.0 as int, e.1 as int, e.2 as int)));
            assert(xv == (x.0 as int, x.1 as int, x.2 as int));
            assert(p(i as int) == edge_before(layers@, xv, ov[i as int]));
            assert(p(i as int) == b);
            lemma_first_index_step(i as nat, p);
            if b {
                lemma_first_index_grows(i as nat + 1, out@.len() as nat, p);
            }
        }
        if b {
            found = true;
        } else {
            i = i + 1;
        }
    }
    let ghost before = out@;
    out.insert(i, x);
    proof {
        if i < before.len() {
            assert(tally_view(out@) =~= ov.insert(i as int, xv));
        } else {
            assert(tally_view(out@) =~= ov.push(xv));
        }
        assert forall|k: int| 0 <= k < out@.len() implies (#[trigger] out@[k]).0 < layers@.len()
            && out@[k].1 < layers@.len() by {
            if k < i {
                assert(out@[k] == before[k]);
            } else if k > i {
                assert(out@[k] == before[k - 1]);
            }
        }
    }
}

/// The dependencies between confirmed layers: for each pair of different layers that
/// project references cross, one edge with the layers' names, the number of such
/// references, and whether a lower (more foundational) layer depends on a higher one;
/// sorted by source name, then target name. A project belongs to the last layer that lists
/// it; references from or to projects of no layer, and within one layer, are left out.
pub fn compute_inter_layer_edges(layers: &[LayerDef], projects: &[ProjectFile]) -> (r: Vec<
    InterLayerEdge,
>)
    requires
        ref_count(projects@, projects@.len()) < usize::MAX,
    ensures
        edge_views(r@) == layer_edges(layers@, projects@),
{
    let ghost total = ref_count(projects@, projects@.len());
    let mut t: Vec<(usize, usize, usize)> = Vec::new();
    let ghost mut cs: Seq<(int, int)> = Seq::empty();
    let mut seen: usize = 0;
    let mut i: usize = 0;
    while i < projects.len()
        invariant
            i <= projects@.len(),
            total == ref_count(projects@, projects@.len()),
            total < usize::MAX,
            cs == crossings(layers@, projects@, i as nat),
            seen == cs.len(),
            tally_view(t@) == tally(cs, cs.len()),
            forall|k: int| 0 <= k < t@.len() ==> (#[trigger] t@[k]).2 <= cs.len(),
            forall|k: int|
                0 <= k < t@.len() ==> (#[trigger] t@[k]).0 < layers@.len() && t@[k].1
                    < layers@.len(),
        decreases projects@.len() - i,
    {
        let p = &projects[i];
        let from = layer_index(layers, p.name.as_str());
        let ghost base = cs;
        proof {
            lemma_crossings_len(layers@, projects@, i as nat);
            lemma_ref_count_mono(projects@, i as nat + 1, projects@.len());
        }
        let mut j: usize = 0;
        while j < p.project_refs.len()
            invariant
                j <= p.project_refs@.len(),
                i < projects@.len(),
                *p == projects@[i as int],
                from is None <==> layer_of(layers@, p.name@) == -1,
                from is Some ==> from.unwrap() as int == layer_of(layers@, p.name@)
                    && from.unwrap() < layers@.len(),
                total == ref_count(projects@, projects@.len()),
                total < usize::MAX,
                base == crossings(layers@, projects@, i as nat),
                base.len() <= ref_count(projects@, i as nat),
                ref_count(projects@, i as nat + 1) <= total,
                cs == base + crossing_refs(layers@, *p, j as nat),
                seen == cs.len(),
                tally_view(t@) == tally(cs, cs.len()),
                forall|k: int| 0 <= k < t@.len() ==> (#[trigger] t@[k]).2 <= cs.len(),
                forall|k: int|
                    0 <= k < t@.len() ==> (#[trigger] t@[k]).0 < layers@.len() && t@[k].1
                        < layers@.len(),
            decreases p.project_refs@.len() - j,
        {
            let target = graph_target(&p.project_refs[j]);
            let to = layer_index(layers, target.as_str());
            proof {
                assert(ref_names(*p)[j as int] == target@);
                lemma_crossing_refs_len(layers@, *p, j as nat);
            }
            if let Some(f) = from {
                if let Some(tt) = to {
                    if f != tt {
                        let ghost prev = t@;
                        tally_bump(&mut t, f, tt, seen + 1);
                        seen = seen + 1;
                        proof {
                            let x = (f as int, tt as int);
                            lemma_tally_push(cs, x, cs.len());
                            assert(cs.push(x) =~= base + crossing_refs(layers@, *p, j as nat + 1));
                            cs = cs.push(x);
                            assert forall|k: int| 0 <= k < t@.len() implies (#[trigger] t@[k]).0
                                < layers@.len() && t@[k].1 < layers@.len() by {
                                if !(t@[k].0 == f && t@[k].1 == tt) {
                                    assert(prev[k] == prev[k]);
                                }
                            }
                        }
                    }
                }
            }
            proof {
                if !(crossing_refs(layers@, *p, j as nat + 1).len() > crossing_refs(
                    layers@,
                    *p,
                    j as nat,
                ).len()) {
                    assert(cs =~= base + crossing_refs(layers@, *p, j as nat + 1));
                }
            }
            j = j + 1;
        }
        proof {
            assert(cs =~= crossings(layers@, projects@, i as nat + 1));
        }
        i = i + 1;
    }
    let ghost tv = tally_view(t@);
    let mut sorted: Vec<(usize, usize, usize)> = Vec::new();
    let mut k: usize = 0;
    proof {
        assert(tally_view(sorted@) =~= sort_edges(layers@, tv.take(0)));
    }
    while k < t.len()
        invariant
            k <= t@.len(),
            tv == tally_view(t@),
            tally_view(sorted@) == sort_edges(layers@, tv.take(k as int)),
            forall|q: int|
                0 <= q < t@.len() ==> (#[trigger] t@[q]).0 < layers@.len() && t@[q].1
                    < layers@.len(),
            forall|q: int|
                0 <= q < sorted@.len() ==> (#[trigger] sorted@[q]).0 < layers@.len()
                    && sorted@[q].1 < layers@.len(),
        decreases t@.len() - k,
    {
        insert_edge_entry(layers, &mut sorted, t[k]);
        proof {
            assert(tv.take(k + 1).drop_last() =~= tv.take(k as int));
        }
        k = k + 1;
    }
    proof {
        assert(tv.take(t@.len() as int) =~= tv);
    }
    let ghost sv = tally_view(sorted@);
    let mut out: Vec<InterLayerEdge> = Vec::new();
    let mut q: usize = 0;
    while q < sorted.len()
        invariant
            q <= sorted@.len(),
            sv == tally_view(sorted@),
            forall|w: int|
                0 <= w < sorted@.len() ==> (#[trigger] sorted@[w]).0 < layers@.len()
                    && sorted@[w].1 < layers@.len(),
            edge_views(out@) == sv.take(q as int).map_values(
                |e: (int, int, int)| (layers@[e.0].name@, layers@[e.1].name@, e.2, e.0 < e.1),
            ),
        decreases sorted@.len() - q,
    {
        let e = sorted[q];
        let edge = InterLayerEdge {
            from: layers[e.0].name.clone(),
            to: layers[e.1].name.clone(),
            ref_count: e.2,
            unusual: e.0 < e.1,
        };
        let ghost prev = out@;
        out.push(edge);
        proof {
            assert(edge_views(out@) =~= edge_views(prev).push(edge_view(edge)));
            assert(edge_views(out@) =~= sv.take(q + 1).map_values(
                |e: (int, int, int)| (layers@[e.0].name@, layers@[e.1].name@, e.2, e.0 < e.1),
            ));
        }
        q = q + 1;
    }
    proof {
        assert(sv.take(sorted@.len() as int) =~= sv);
    }
    out
}

/// Each tier of a scan is strictly sorted by name and holds exactly the projects placed at
/// that tier.
pub proof fn law_scan_tiers_sorted(ps: Seq<ProjectFile>, comps: Seq<Seq<int>>, t: int)
    requires
        0 <= t < scan_outcome(ps, comps).0.len(),
    ensures
        crate::order::strictly_sorted(scan_outcome(ps, comps).0[t]),
        forall|x: Seq<char>|
            scan_outcome(ps, comps).0[t].contains(x) <==> tier_of(
                {
                    let nt = non_tests(ps);
                    let names = project_names(nt);
                    let cycles = cycle_groups(comps, names, comps.len());
                    place_cycles(settled_tiers(nt, names, cycles), nt, cycles, cycles.len())
                },
                x,
            ) == Some(t),
{
    let nt = non_tests(ps);
    let names = project_names(nt);
    let cycles = cycle_groups(comps, names, comps.len());
    law_placed_names_unique(nt, names, cycles);
    law_buckets_sorted(
        place_cycles(settled_tiers(nt, names, cycles), nt, cycles, cycles.len()),
        t,
    );
}

/// How often pair `x` occurs among the first `n` of `s`.
pub open spec fn occurrences(s: Seq<(int, int)>, x: (int, int), n: nat) -> nat
    decreases n,
{
    if n == 0 {
        0
    } else {
        occurrences(s, x, (n - 1) as nat) + if s[n - 1] == x {
            1nat
        } else {
            0nat
        }
    }
}

/// The pair counted by tally entry `e`.
pub open spec fn pair_of(e: (int, int, int)) -> (int, int) {
    (e.0, e.1)
}

proof fn lemma_occurrences_absent(s: Seq<(int, int)>, x: (int, int), n: nat)
    requires
        n <= s.len(),
        forall|j: int| 0 <= j < n ==> s[j] != x,
    ensures
        occurrences(s, x, n) == 0,
    decreases n,
{
    if n > 0 {
        lemma_occurrences_absent(s, x, (n - 1) as nat);
    }
}

/// Every pair among the first `n` has a tally entry.
proof fn lemma_tally_covers(s: Seq<(int, int)>, n: nat)
    requires
        n <= s.len(),
    ensures
        forall|j: int|
            0 <= j < n ==> exists|k: int|
                0 <= k < tally(s, n).len() && pair_of(#[trigger] tally(s, n)[k]) == #[trigger] s[j],
    decreases n,
{
    if n > 0 {
        lemma_tally_covers(s, (n - 1) as nat);
        let prev = tally(s, (n - 1) as nat);
        let cur = tally(s, n);
        let x = s[n - 1];
        let p = counts_pair(prev, x);
        lemma_first_index(prev.len(), p);
        assert forall|j: int| 0 <= j < n implies exists|k: int|
            0 <= k < cur.len() && pair_of(#[trigger] cur[k]) == #[trigger] s[j] by {
            if j < n - 1 {
                let k = choose|k: int| 0 <= k < prev.len() && pair_of(#[trigger] prev[k]) == s[j];
                assert(pair_of(cur[k]) == pair_of(prev[k]));
            } else {
                match first_index(prev.len(), p) {
                    Some(i) => {
                        assert(pair_of(cur[i]) == x);
                    },
                    None => {
                        assert(pair_of(cur[prev.len() as int]) == x);
                    },
                }
            }
        }
    }
}

/// No two tally entries count the same pair.
proof fn lemma_tally_distinct(s: Seq<(int, int)>, n: nat)
    requires
        n <= s.len(),
    ensures
        forall|a: int, b: int|
            0 <= a < b < tally(s, n).len() ==> pair_of(#[trigger] tally(s, n)[a]) != pair_of(
                #[trigger] tally(s, n)[b],
            ),
    decreases n,
{
    if n > 0 {
        lemma_tally_distinct(s, (n - 1) as nat);
        let prev = tally(s, (n - 1) as nat);
        let cur = tally(s, n);
        let x = s[n - 1];
        let p = counts_pair(prev, x);
        lemma_first_index(prev.len(), p);
        assert forall|a: int, b: int| 0 <= a < b < cur.len() implies pair_of(#[trigger] cur[a])
            != pair_of(#[trigger] cur[b]) by {
            if b < prev.len() {
                assert(pair_of(cur[a]) == pair_of(prev[a]));
                assert(pair_of(cur[b]) == pair_of(prev[b]));
            } else {
                assert(pair_of(cur[a]) == pair_of(prev[a]));
                assert(!p(a));
            }
        }
    }
}

/// Each tally entry counts how often its pair occurs among the first `n`, at least once.
proof fn lemma_tally_counts(s: Seq<(int, int)>, n: nat)
    requires
        n <= s.len(),
    ensures
        forall|k: int|
            0 <= k < tally(s, n).len() ==> (#[trigger] tally(s, n)[k]).2 == occurrences(
                s,
                pair_of(tally(s, n)[k]),
                n,
            ) && tally(s, n)[k].2 >= 1,
    decreases n,
{
    if n > 0 {
        lemma_tally_counts(s, (n - 1) as nat);
        lemma_tally_covers(s, (n - 1) as nat);
        lemma_tally_distinct(s, (n - 1) as nat);
        let prev = tally(s, (n - 1) as nat);
        let cur = tally(s, n);
        let x = s[n - 1];
        let p = counts_pair(prev, x);
        lemma_first_index(prev.len(), p);
        assert forall|k: int| 0 <= k < cur.len() implies (#[trigger] cur[k]).2 == occurrences(
            s,
            pair_of(cur[k]),
            n,
        ) && cur[k].2 >= 1 by {
            if k < prev.len() {
                if p(k) {
                    assert(pair_of(prev[k]) == x);
                    assert(first_index(prev.len(), p) == Some(k)) by {
                        let i = first_index(prev.len(), p)->0;
                        if i < k {
                            assert(pair_of(prev[i]) == x);
                            assert(pair_of(prev[i]) != pair_of(prev[k]));
                        }
                    }
                } else {
                    if first_index(prev.len(), p) is Some {
                        let i = first_index(prev.len(), p)->0;
                        assert(k != i);
                    }
                    assert(cur[k] == prev[k]);
                    assert(pair_of(prev[k]) != x);
                }
            } else {
                assert(first_index(prev.len(), p) is None);
                assert(cur[k] == (x.0, x.1, 1int));
                assert forall|j: int| 0 <= j < n - 1 implies s[j] != x by {
                    if s[j] == x {
                        let q = choose|q: int|
                            0 <= q < prev.len() && pair_of(#[trigger] prev[q]) == s[j];
                        assert(p(q));
                    }
                }
                lemma_occurrences_absent(s, x, (n - 1) as nat);
            }
        }
    }
}

proof fn lemma_sort_edges_same(layers: Seq<LayerDef>, s: Seq<(int, int, int)>)
    ensures
        sort_edges(layers, s).len() == s.len(),
        forall|y: (int, int, int)|
            #![trigger sort_edges(layers, s).contains(y)]
            #![trigger s.contains(y)]
            sort_edges(layers, s).contains(y) <==> s.contains(y),
    decreases s.len(),
{
    if s.len() > 0 {
        let init = s.drop_last();
        lemma_sort_edges_same(layers, init);
        let t = sort_edges(layers, init);
        let x = s.last();
        let r = sort_edges(layers, s);
        assert(r == insert_edge(layers, t, x));
        lemma_first_index(t.len(), goes_before(layers, t, x));
        assert(r.len() == t.len() + 1);
        assert forall|y: (int, int, int)| r.contains(y) <==> s.contains(y) by {
            match first_index(t.len(), goes_before(layers, t, x)) {
                Some(i) => {
                    lemma_first_index(t.len(), goes_before(layers, t, x));
                    if r.contains(y) {
                        let a = choose|a: int| 0 <= a < r.len() && r[a] == y;
                        if a < i {
                            assert(t[a] == y);
                        } else if a > i {
                            assert(t[a - 1] == y);
                        }
                    }
                    if t.contains(y) {
                        let a = choose|a: int| 0 <= a < t.len() && t[a] == y;
                        if a < i {
                            assert(r[a] == y);
                        } else {
                            assert(r[a + 1] == y);
                        }
                    }
                    if y == x {
                        assert(r[i] == y);
                    }
                },
                None => {
                    if r.contains(y) {
                        let a = choose|a: int| 0 <= a < r.len() && r[a] == y;
                        if a < t.len() {
                            assert(t[a] == y);
                        }
                    }
                    if t.contains(y) {
                        let a = choose|a: int| 0 <= a < t.len() && t[a] == y;
                        assert(r[a] == y);
                    }
                    if y == x {
                        assert(r[t.len() as int] == y);
                    }
                },
            }
            if s.contains(y) {
                let a = choose|a: int| 0 <= a < s.len() && s[a] == y;
                if a < s.len() - 1 {
                    assert(init[a] == y);
                }
            }
            if init.contains(y) {
                let a = choose|a: int| 0 <= a < init.len() && init[a] == y;
                assert(s[a] == y);
            }
        }
    }
}

proof fn lemma_layer_of_range(layers: Seq<LayerDef>, x: Seq<char>, i: nat)
    requires
        i <= layers.len(),
    ensures
        -1 <= layer_of_upto(layers, x, i) < i,
    decreases i,
{
    if i > 0 {
        lemma_layer_of_range(layers, x, (i - 1) as nat);
    }
}

proof fn lemma_crossing_refs_valid(layers: Seq<LayerDef>, p: ProjectFile, k: nat)
    ensures
        forall|j: int|
            0 <= j < crossing_refs(layers, p, k).len() ==> 0 <= (#[trigger] crossing_refs(
                layers,
                p,
                k,
            )[j]).0 < layers.len() && 0 <= crossing_refs(layers, p, k)[j].1 < layers.len()
                && crossing_refs(layers, p, k)[j].0 != crossing_refs(layers, p, k)[j].1,
    decreases k,
{
    if k > 0 {
        lemma_crossing_refs_valid(layers, p, (k - 1) as nat);
        lemma_layer_of_range(layers, p.name@, layers.len());
        lemma_layer_of_range(layers, ref_names(p)[k - 1], layers.len());
        let prev = crossing_refs(layers, p, (k - 1) as nat);
        let cur = crossing_refs(layers, p, k);
        assert forall|j: int| 0 <= j < cur.len() implies 0 <= (#[trigger] cur[j]).0 < layers.len()
            && 0 <= cur[j].1 < layers.len() && cur[j].0 != cur[j].1 by {
            if j < prev.len() {
                assert(cur[j] == prev[j]);
            }
        }
    }
}

proof fn lemma_crossings_valid(layers: Seq<LayerDef>, ps: Seq<ProjectFile>, n: nat)
    ensures
        forall|j: int|
            0 <= j < crossings(layers, ps, n).len() ==> 0 <= (#[trigger] crossings(
                layers,
                ps,
                n,
            )[j]).0 < layers.len() && 0 <= crossings(layers, ps, n)[j].1 < layers.len()
                && crossings(layers, ps, n)[j].0 != crossings(layers, ps, n)[j].1,
    decreases n,
{
    if n > 0 {
        lemma_crossings_valid(layers, ps, (n - 1) as nat);
        let a = crossings(layers, ps, (n - 1) as nat);
        let b = crossing_refs(layers, ps[n - 1], ps[n - 1].project_refs@.len());
        lemma_crossing_refs_valid(layers, ps[n - 1], ps[n - 1].project_refs@.len());
        assert forall|j: int| 0 <= j < (a + b).len() implies 0 <= (#[trigger] (a + b)[j]).0
            < layers.len() && 0 <= (a + b)[j].1 < layers.len() && (a + b)[j].0 != (a + b)[j].1 by {
            if j < a.len() {
                assert((a + b)[j] == a[j]);
            } else {
                assert((a + b)[j] == b[j - a.len()]);
            }
        }
    }
}

/// The dependencies between layers count exactly the references that cross between two
/// different layers: each entry (source layer, target layer, count) counts how many crossing
/// references go from the one to the other, at least one, and every crossing reference is
/// counted in one entry.
pub proof fn law_inter_layer_counts(layers: Seq<LayerDef>, ps: Seq<ProjectFile>)
    ensures
        ({
            let c = crossings(layers, ps, ps.len());
            let t = sort_edges(layers, tally(c, c.len()));
            &&& forall|k: int|
                0 <= k < t.len() ==> (#[trigger] t[k]).2 == occurrences(c, pair_of(t[k]), c.len())
                    && t[k].2 >= 1 && t[k].0 != t[k].1 && 0 <= t[k].0 < layers.len() && 0 <= t[k].1
                    < layers.len()
            &&& forall|j: int|
                0 <= j < c.len() ==> exists|k: int|
                    0 <= k < t.len() && pair_of(#[trigger] t[k]) == #[trigger] c[j]
        }),
{
    let c = crossings(layers, ps, ps.len());
    let u = tally(c, c.len());
    let t = sort_edges(layers, u);
    lemma_tally_counts(c, c.len());
    lemma_tally_covers(c, c.len());
    lemma_crossings_valid(layers, ps, ps.len());
    lemma_sort_edges_same(layers, u);
    assert forall|k: int| 0 <= k < t.len() implies (#[trigger] t[k]).2 == occurrences(
        c,
        pair_of(t[k]),
        c.len(),
    ) && t[k].2 >= 1 && t[k].0 != t[k].1 && 0 <= t[k].0 < layers.len() && 0 <= t[k].1
        < layers.len() by {
        assert(t.contains(t[k]));
        let q = choose|q: int| 0 <= q < u.len() && u[q] == t[k];
        assert(u[q].2 >= 1);
        lemma_crossing_source(c, pair_of(u[q]), c.len());
        let j = choose|j: int| 0 <= j < c.len() && c[j] == pair_of(u[q]);
        assert(c[j].0 != c[j].1);
    }
    assert forall|j: int| 0 <= j < c.len() implies exists|k: int|
        0 <= k < t.len() && pair_of(#[trigger] t[k]) == #[trigger] c[j] by {
        let q = choose|q: int| 0 <= q < u.len() && pair_of(#[trigger] u[q]) == c[j];
        assert(u.contains(u[q]));
        assert(t.contains(u[q]));
        let k = choose|k: int| 0 <= k < t.len() && t[k] == u[q];
        assert(pair_of(t[k]) == c[j]);
    }
}

/// A pair that occurs has a position.
proof fn lemma_crossing_source(s: Seq<(int, int)>, x: (int, int), n: nat)
    requires
        n <= s.len(),
        occurrences(s, x, n) >= 1,
    ensures
        exists|j: int| 0 <= j < n && s[j] == x,
    decreases n,
{
    if n > 0 {
        if s[n - 1] != x {
            lemma_crossing_source(s, x, (n - 1) as nat);
        }
    }
}

/// The entries are in strictly increasing order.
pub open spec fn edges_sorted(layers: Seq<LayerDef>, s: Seq<(int, int, int)>) -> bool {
    forall|i: int, j: int| 0 <= i < j < s.len() ==> edge_before(layers, #[trigger] s[i], #[trigger] s[j])
}

proof fn lemma_edge_before_transitive(
    layers: Seq<LayerDef>,
    a: (int, int, int),
    b: (int, int, int),
    c: (int, int, int),
)
    requires
        edge_before(layers, a, b),
        edge_before(layers, b, c),
    ensures
        edge_before(layers, a, c),
{
    let (af, at) = (layers[a.0].name@, layers[a.1].name@);
    let (bf, bt) = (layers[b.0].name@, layers[b.1].name@);
    let (cf, ct) = (layers[c.0].name@, layers[c.1].name@);
    if chars_lt(af, bf) && chars_lt(bf, cf) {
        lemma_lt_transitive(af, bf, cf);
    }
    if af == bf && bf == cf && chars_lt(at, bt) && chars_lt(bt, ct) {
        lemma_lt_transitive(at, bt, ct);
    }
}

proof fn lemma_edge_before_total(layers: Seq<LayerDef>, a: (int, int, int), b: (int, int, int))
    requires
        pair_of(a) != pair_of(b),
    ensures
        edge_before(layers, a, b) || edge_before(layers, b, a),
{
    let (af, at) = (layers[a.0].name@, layers[a.1].name@);
    let (bf, bt) = (layers[b.0].name@, layers[b.1].name@);
    if af != bf {
        lemma_lt_total(af, bf);
    } else if at != bt {
        lemma_lt_total(at, bt);
    }
}

proof fn lemma_insert_edge_sorted(layers: Seq<LayerDef>, s: Seq<(int, int, int)>, x: (int, int, int))
    requires
        edges_sorted(layers, s),
        forall|i: int| 0 <= i < s.len() ==> pair_of(#[trigger] s[i]) != pair_of(x),
    ensures
        edges_sorted(layers, insert_edge(layers, s, x)),
{
    let p = goes_before(layers, s, x);
    lemma_first_index(s.len(), p);
    let k = match first_index(s.len(), p) {
        Some(i) => i,
        None => s.len() as int,
    };
    let t = insert_edge(layers, s, x);
    assert(t =~= s.insert(k, x));
    assert forall|j: int| 0 <= j < k implies edge_before(layers, #[trigger] s[j], x) by {
        assert(!p(j));
        lemma_edge_before_total(layers, s[j], x);
    }
    assert forall|j: int| k <= j < s.len() implies edge_before(layers, x, #[trigger] s[j]) by {
        assert(p(k));
        if j > k {
            lemma_edge_before_transitive(layers, x, s[k], s[j]);
        }
    }
    assert forall|i: int, j: int| 0 <= i < j < t.len() implies edge_before(
        layers,
        #[trigger] t[i],
        #[trigger] t[j],
    ) by {
        if i < k && j < k {
            assert(t[i] == s[i] && t[j] == s[j]);
        } else if i < k && j == k {
            assert(t[i] == s[i]);
        } else if i < k {
            assert(t[i] == s[i] && t[j] == s[j - 1]);
        } else if i == k {
            assert(t[j] == s[j - 1]);
        } else {
            assert(t[i] == s[i - 1] && t[j] == s[j - 1]);
        }
    }
}

proof fn lemma_sort_edges_sorted(layers: Seq<LayerDef>, s: Seq<(int, int, int)>)
    requires
        forall|a: int, b: int| 0 <= a < b < s.len() ==> pair_of(#[trigger] s[a]) != pair_of(#[trigger] s[b]),
    ensures
        edges_sorted(layers, sort_edges(layers, s)),
    decreases s.len(),
{
    if s.len() > 0 {
        let init = s.drop_last();
        assert forall|a: int, b: int| 0 <= a < b < init.len() implies pair_of(#[trigger] init[a])
            != pair_of(#[trigger] init[b]) by {
            assert(init[a] == s[a] && init[b] == s[b]);
        }
        lemma_sort_edges_sorted(layers, init);
        lemma_sort_edges_same(layers, init);
        let t = sort_edges(layers, init);
        let x = s.last();
        assert forall|i: int| 0 <= i < t.len() implies pair_of(#[trigger] t[i]) != pair_of(x) by {
            assert(t.contains(t[i]));
            assert(init.contains(t[i]));
            let a = choose|a: int| 0 <= a < init.len() && init[a] == t[i];
            assert(s[a] == t[i]);
        }
        lemma_insert_edge_sorted(layers, t, x);
    }
}

/// The dependencies between layers come sorted by the name of the source layer, then of the
/// target layer (then by the layers' positions), each pair of layers once.
pub proof fn law_inter_layer_sorted(layers: Seq<LayerDef>, ps: Seq<ProjectFile>)
    ensures
        ({
            let c = crossings(layers, ps, ps.len());
            edges_sorted(layers, sort_edges(layers, tally(c, c.len())))
        }),
{
    let c = crossings(layers, ps, ps.len());
    lemma_tally_distinct(c, c.len());
    lemma_sort_edges_sorted(layers, tally(c, c.len()));
}

/// Edge `e` goes from a layer to another, different one, and is flagged unusual exactly when
/// the source layer comes before the target layer in the order of the layers.
pub open spec fn unusual_when_upward(layers: Seq<LayerDef>, e: (Seq<char>, Seq<char>, int, bool)) -> bool {
    exists|a: int, b: int|
        #![trigger layers[a], layers[b]]
        0 <= a < layers.len() && 0 <= b < layers.len() && a != b && layers[a].name@ == e.0
            && layers[b].name@ == e.1 && e.3 == (a < b)
}

/// Each dependency between layers goes from one layer to another, different one, and is
/// flagged unusual exactly when the source layer comes before (below) the target layer in
/// the order of the layers: a more foundational layer depending on a less foundational one.
pub proof fn law_inter_layer_unusual(layers: Seq<LayerDef>, ps: Seq<ProjectFile>)
    ensures
        forall|i: int|
            0 <= i < layer_edges(layers, ps).len() ==> unusual_when_upward(
                layers,
                #[trigger] layer_edges(layers, ps)[i],
            ),
{
    law_inter_layer_counts(layers, ps);
    let c = crossings(layers, ps, ps.len());
    let t = sort_edges(layers, tally(c, c.len()));
    assert forall|i: int| 0 <= i < layer_edges(layers, ps).len() implies unusual_when_upward(
        layers,
        #[trigger] layer_edges(layers, ps)[i],
    ) by {
        let e = t[i];
        assert(e.0 != e.1 && 0 <= e.0 < layers.len() && 0 <= e.1 < layers.len());
        let x = layer_edges(layers, ps)[i];
        assert(x == (layers[e.0].name@, layers[e.1].name@, e.2, e.0 < e.1));
        assert(layers[e.0].name@ == x.0 && layers[e.1].name@ == x.1 && x.3 == (e.0 < e.1));
    }
}

/// Every entry of the map names one of the projects.
pub open spec fn entries_named(m: TierEntries, ps: Seq<ProjectFile>) -> bool {
    forall|k: int| 0 <= k < m.len() ==> #[trigger] project_names(ps).contains(m[k].0)
}

proof fn lemma_set_tier_named(m: TierEntries, ps: Seq<ProjectFile>, name: Seq<char>, t: int)
    requires
        entries_named(m, ps),
        project_names(ps).contains(name),
    ensures
        entries_named(set_tier(m, name, t), ps),
{
    lemma_entry_at(m, name);
    let r = set_tier(m, name, t);
    assert forall|k: int| 0 <= k < r.len() implies #[trigger] project_names(ps).contains(r[k].0) by {
        if k < m.len() && r[k] == m[k] {
        } else {
            assert(r[k].0 == name);
        }
    }
}

proof fn lemma_place_named(
    m: TierEntries,
    ps: Seq<ProjectFile>,
    cycles: Seq<Seq<Seq<char>>>,
    g: nat,
)
    requires
        g <= cycles.len(),
        entries_named(m, ps),
        forall|a: int, j: int|
            0 <= a < cycles.len() && 0 <= j < cycles[a].len() ==> project_names(ps).contains(
                #[trigger] cycles[a][j],
            ),
    ensures
        entries_named(place_cycles(m, ps, cycles, g), ps),
    decreases g,
{
    if g > 0 {
        lemma_place_named(m, ps, cycles, (g - 1) as nat);
        let before = place_cycles(m, ps, cycles, (g - 1) as nat);
        let group = cycles[g - 1];
        lemma_set_tiers_named(
            before,
            ps,
            group,
            group_top(before, ps, group, group.len()) + 1,
            group.len(),
        );
    }
}

proof fn lemma_set_tiers_named(
    m: TierEntries,
    ps: Seq<ProjectFile>,
    group: Seq<Seq<char>>,
    t: int,
    k: nat,
)
    requires
        k <= group.len(),
        entries_named(m, ps),
        forall|j: int| 0 <= j < group.len() ==> project_names(ps).contains(#[trigger] group[j]),
    ensures
        entries_named(set_tiers(m, group, t, k), ps),
    decreases k,
{
    if k > 0 {
        lemma_set_tiers_named(m, ps, group, t, (k - 1) as nat);
        lemma_set_tier_named(set_tiers(m, group, t, (k - 1) as nat), ps, group[k - 1], t);
    }
}

proof fn lemma_cycle_groups_named(comps: Seq<Seq<int>>, nt: Seq<ProjectFile>, k: nat)
    requires
        k <= comps.len(),
        forall|i: int, j: int|
            0 <= i < comps.len() && 0 <= j < comps[i].len() ==> 0 <= #[trigger] comps[i][j] < nt.len(),
    ensures
        forall|a: int, j: int|
            0 <= a < cycle_groups(comps, project_names(nt), k).len() && 0 <= j < cycle_groups(
                comps,
                project_names(nt),
                k,
            )[a].len() ==> project_names(nt).contains(
                #[trigger] cycle_groups(comps, project_names(nt), k)[a][j],
            ),
    decreases k,
{
    if k > 0 {
        lemma_cycle_groups_named(comps, nt, (k - 1) as nat);
        let names = project_names(nt);
        let prev = cycle_groups(comps, names, (k - 1) as nat);
        let cur = cycle_groups(comps, names, k);
        assert forall|a: int, j: int| 0 <= a < cur.len() && 0 <= j < cur[a].len() implies names.contains(
            #[trigger] cur[a][j],
        ) by {
            if a < prev.len() {
                assert(cur[a] == prev[a]);
            } else {
                let c = comps[k - 1];
                assert(cur[a] == node_group(c, names));
                assert(cur[a][j] == names[c[j]]);
                assert(0 <= c[j] < nt.len());
            }
        }
    }
}

proof fn lemma_non_tests_clean(ps: Seq<ProjectFile>, n: nat)
    requires
        n <= ps.len(),
    ensures
        forall|i: int|
            0 <= i < non_tests_upto(ps, n).len() ==> !is_test_name(
                (#[trigger] non_tests_upto(ps, n)[i]).name@,
            ),
    decreases n,
{
    if n > 0 {
        lemma_non_tests_clean(ps, (n - 1) as nat);
        let prev = non_tests_upto(ps, (n - 1) as nat);
        let cur = non_tests_upto(ps, n);
        assert forall|i: int| 0 <= i < cur.len() implies !is_test_name((#[trigger] cur[i]).name@) by {
            if i < prev.len() {
                assert(cur[i] == prev[i]);
            }
        }
    }
}

/// Test projects never appear in a tier: every project in a tier of a scan is one of the
/// solution's projects that is not a test project (given components over its graph's
/// nodes).
pub proof fn law_scan_tiers_exclude_tests(ps: Seq<ProjectFile>, comps: Seq<Seq<int>>, t: int, x: Seq<char>)
    requires
        forall|i: int, j: int|
            0 <= i < comps.len() && 0 <= j < comps[i].len() ==> 0 <= #[trigger] comps[i][j]
                < non_tests(ps).len(),
        0 <= t < scan_outcome(ps, comps).0.len(),
        scan_outcome(ps, comps).0[t].contains(x),
    ensures
        project_names(non_tests(ps)).contains(x),
        !is_test_name(x),
{
    let nt = non_tests(ps);
    let names = project_names(nt);
    let cycles = cycle_groups(comps, names, comps.len());
    let settled = settled_tiers(nt, names, cycles);
    let placed = place_cycles(settled, nt, cycles, cycles.len());
    law_scan_tiers_sorted(ps, comps, t);
    law_tiers_are_depths(nt, names, cycles);
    assert forall|k: int| 0 <= k < settled.len() implies #[trigger] names.contains(settled[k].0) by {
        assert(entry_is_depth(settled, nt, names, cycles, k));
        let i = choose|i: int| #[trigger] crate::tiers::depth_witness(settled, nt, names, cycles, k, i);
        assert(names[i] == nt[i].name@);
    }
    lemma_cycle_groups_named(comps, nt, comps.len());
    lemma_place_named(settled, nt, cycles, cycles.len());
    lemma_entry_at(placed, x);
    let e = entry_at(placed, x)->0;
    assert(names.contains(placed[e].0));
    let i = choose|i: int| 0 <= i < names.len() && names[i] == x;
    lemma_non_tests_clean(ps, ps.len());
    assert(nt[i].name@ == x);
}

/// Every cycle of a scan has more than one member.
pub proof fn law_cycles_have_several_members(comps: Seq<Seq<int>>, names: Seq<Seq<char>>, k: nat, g: int)
    requires
        k <= comps.len(),
        0 <= g < cycle_groups(comps, names, k).len(),
    ensures
        cycle_groups(comps, names, k)[g].len() > 1,
    decreases k,
{
    if k > 0 {
        let prev = cycle_groups(comps, names, (k - 1) as nat);
        if g < prev.len() {
            law_cycles_have_several_members(comps, names, (k - 1) as nat, g);
        }
    }
}

} // verus!
