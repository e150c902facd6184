//! Dependency tiers: each project's tier is one more than the highest tier among its
//! dependencies (0 without any), assigned in passes until a pass assigns nothing; projects
//! in a dependency cycle are placed afterwards, a cycle at a time.

use vstd::prelude::*;

use crate::graph::{graph_target, graph_target_name};
use crate::order::{insert_name_sorted, sort_names};
use crate::report::string_views;
use crate::text::str_eq;
use crate::project::{ProjectFile, ProjectRef};
use crate::search::{first_index, lemma_first_index, lemma_first_index_step};

verus! {

/// A tier map: names with their tiers, in the order they were assigned.
pub type TierEntries = Seq<(Seq<char>, int)>;

/// Whether entry `i` of the tier map is `name`'s.
pub open spec fn is_entry_of(m: TierEntries, name: Seq<char>) -> spec_fn(int) -> bool {
    |i: int| m[i].0 == name
}

/// The position of `name` in the tier map, if it has a tier.
pub open spec fn entry_at(m: TierEntries, name: Seq<char>) -> Option<int> {
    first_index(m.len(), is_entry_of(m, name))
}

/// The tier of `name`, if it has one.
pub open spec fn tier_of(m: TierEntries, name: Seq<char>) -> Option<int> {
    match entry_at(m, name) {
        Some(i) => Some(m[i].1),
        None => None,
    }
}

/// The map with the tier of `name` set to `t`: in place when it has one, else appended.
pub open spec fn set_tier(m: TierEntries, name: Seq<char>, t: int) -> TierEntries {
    match entry_at(m, name) {
        Some(i) => m.update(i, (name, t)),
        None => m.push((name, t)),
    }
}

/// `entry_at` finds the first entry of `name`, and none exactly when there is none.
pub proof fn lemma_entry_at(m: TierEntries, name: Seq<char>)
    ensures
        entry_at(m, name) matches Some(i) ==> 0 <= i < m.len() && m[i].0 == name && forall|j: int|
            0 <= j < i ==> m[j].0 != name,
        entry_at(m, name) is None <==> forall|j: int| 0 <= j < m.len() ==> m[j].0 != name,
{
    let p = is_entry_of(m, name);
    lemma_first_index(m.len(), p);
    if entry_at(m, name) is None {
        assert forall|j: int| 0 <= j < m.len() implies m[j].0 != name by {
            assert(!p(j));
        }
    } else {
        let i = entry_at(m, name)->0;
        assert(p(i));
        assert forall|j: int| 0 <= j < i implies m[j].0 != name by {
            assert(!p(j));
        }
    }
}

/// `a` is a prefix of `b`.
pub open spec fn extends(a: TierEntries, b: TierEntries) -> bool {
    a.len() <= b.len() && forall|i: int| 0 <= i < a.len() ==> #[trigger] b[i] == a[i]
}

/// A name with a tier keeps it in every map that extends the map.
pub proof fn lemma_extends_keeps(a: TierEntries, b: TierEntries, name: Seq<char>)
    requires
        extends(a, b),
        tier_of(a, name) is Some,
    ensures
        tier_of(b, name) == tier_of(a, name),
        entry_at(b, name) == entry_at(a, name),
{
    lemma_entry_at(a, name);
    lemma_entry_at(b, name);
    let i = entry_at(a, name)->0;
    assert(b[i] == a[i]);
    if let Some(k) = entry_at(b, name) {
        if k < i {
            assert(b[k] == a[k]);
        }
    }
}

/// The names that a project's references point to, in order.
pub open spec fn ref_names(p: ProjectFile) -> Seq<Seq<char>> {
    p.project_refs@.map_values(|r: ProjectRef| graph_target_name(r))
}

/// `x` is among the names of the groups.
pub open spec fn in_groups(groups: Seq<Seq<Seq<char>>>, x: Seq<char>) -> bool {
    exists|g: int, j: int| 0 <= g < groups.len() && 0 <= j < groups[g].len() && groups[g][j] == x
}

/// `n` takes part in tiering as a dependency: a project of the solution outside every cycle.
pub open spec fn is_tier_dep(n: Seq<char>, names: Seq<Seq<char>>, cycles: Seq<Seq<Seq<char>>>) -> bool {
    names.contains(n) && !in_groups(cycles, n)
}

/// Every dependency among the first `k` reference names has a tier.
pub open spec fn deps_ready(
    m: TierEntries,
    refs: Seq<Seq<char>>,
    names: Seq<Seq<char>>,
    cycles: Seq<Seq<Seq<char>>>,
    k: nat,
) -> bool {
    forall|j: int|
        0 <= j < k && is_tier_dep(#[trigger] refs[j], names, cycles) ==> tier_of(m, refs[j]) is Some
}

/// The highest tier among the dependencies of the first `k` reference names, or -1.
pub open spec fn deps_top(
    m: TierEntries,
    refs: Seq<Seq<char>>,
    names: Seq<Seq<char>>,
    cycles: Seq<Seq<Seq<char>>>,
    k: nat,
) -> int
    decreases k,
{
    if k == 0 {
        -1
    } else {
        let prev = deps_top(m, refs, names, cycles, (k - 1) as nat);
        let r = refs[k - 1];
        if is_tier_dep(r, names, cycles) && tier_of(m, r) is Some && tier_of(m, r)->0 > prev {
            tier_of(m, r)->0
        } else {
            prev
        }
    }
}

/// One project's turn in a pass: a project without a tier and outside every cycle gets one
/// when all its dependencies have one.
pub open spec fn tier_step(
    m: TierEntries,
    p: ProjectFile,
    names: Seq<Seq<char>>,
    cycles: Seq<Seq<Seq<char>>>,
) -> TierEntries {
    let refs = ref_names(p);
    if tier_of(m, p.name@) is Some || in_groups(cycles, p.name@) {
        m
    } else if deps_ready(m, refs, names, cycles, refs.len()) {
        m.push((p.name@, deps_top(m, refs, names, cycles, refs.len()) + 1))
    } else {
        m
    }
}

/// The map after the first `i` projects of a pass took their turn.
pub open spec fn pass_upto(
    ps: Seq<ProjectFile>,
    names: Seq<Seq<char>>,
    cycles: Seq<Seq<Seq<char>>>,
    m: TierEntries,
    i: nat,
) -> TierEntries
    decreases i,
{
    if i == 0 {
        m
    } else {
        tier_step(pass_upto(ps, names, cycles, m, (i - 1) as nat), ps[i - 1], names, cycles)
    }
}

/// The map after a whole pass over the projects.
pub open spec fn tier_pass(
    ps: Seq<ProjectFile>,
    names: Seq<Seq<char>>,
    cycles: Seq<Seq<Seq<char>>>,
    m: TierEntries,
) -> TierEntries {
    pass_upto(ps, names, cycles, m, ps.len())
}

/// Passes from `m`, at most `fuel` of them, stopping at the first that assigns nothing.
pub open spec fn settle(
    ps: Seq<ProjectFile>,
    names: Seq<Seq<char>>,
    cycles: Seq<Seq<Seq<char>>>,
    m: TierEntries,
    fuel: nat,
) -> TierEntries
    decreases fuel,
{
    if fuel == 0 {
        m
    } else {
        let next = tier_pass(ps, names, cycles, m);
        if next.len() == m.len() {
            m
        } else {
            settle(ps, names, cycles, next, (fuel - 1) as nat)
        }
    }
}

/// The tiers that passes reach from no tiers at all: one more pass than there are projects
/// always suffices (`lemma_settle_enough`).
pub open spec fn settled_tiers(
    ps: Seq<ProjectFile>,
    names: Seq<Seq<char>>,
    cycles: Seq<Seq<Seq<char>>>,
) -> TierEntries {
    settle(ps, names, cycles, Seq::empty(), ps.len() + 1)
}

/// How many of the first `n` projects have no tier yet.
pub open spec fn unassigned(ps: Seq<ProjectFile>, m: TierEntries, n: nat) -> nat
    decreases n,
{
    if n == 0 {
        0
    } else {
        unassigned(ps, m, (n - 1) as nat) + if tier_of(m, ps[n - 1].name@) is None {
            1nat
        } else {
            0nat
        }
    }
}

proof fn lemma_unassigned_bound(ps: Seq<ProjectFile>, m: TierEntries, n: nat)
    ensures
        unassigned(ps, m, n) <= n,
        m.len() == 0 ==> unassigned(ps, m, n) == n,
    decreases n,
{
    if n > 0 {
        lemma_unassigned_bound(ps, m, (n - 1) as nat);
        if m.len() == 0 {
            lemma_entry_at(m, ps[n - 1].name@);
        }
    }
}

/// Extending a map never raises the count of projects without a tier, and lowers it when a
/// project without one gets one.
proof fn lemma_unassigned_mono(ps: Seq<ProjectFile>, a: TierEntries, b: TierEntries, n: nat, w: int)
    requires
        extends(a, b),
    ensures
        unassigned(ps, b, n) <= unassigned(ps, a, n),
        0 <= w < n && tier_of(a, ps[w].name@) is None && tier_of(b, ps[w].name@) is Some
            ==> unassigned(ps, b, n) < unassigned(ps, a, n),
    decreases n,
{
    if n > 0 {
        lemma_unassigned_mono(ps, a, b, (n - 1) as nat, w);
        let x = ps[n - 1].name@;
        if tier_of(a, x) is Some {
            lemma_extends_keeps(a, b, x);
        }
    }
}

/// A step extends the map; when it assigns, it appends the project's name, which had no tier.
proof fn lemma_step_extends(
    m: TierEntries,
    p: ProjectFile,
    names: Seq<Seq<char>>,
    cycles: Seq<Seq<Seq<char>>>,
)
    ensures
        extends(m, tier_step(m, p, names, cycles)),
        tier_step(m, p, names, cycles).len() == m.len() || (tier_step(m, p, names, cycles).len()
            == m.len() + 1 && tier_of(m, p.name@) is None && tier_of(
            tier_step(m, p, names, cycles),
            p.name@,
        ) is Some),
{
    let s = tier_step(m, p, names, cycles);
    if s.len() != m.len() {
        lemma_entry_at(m, p.name@);
        lemma_entry_at(s, p.name@);
        assert(s[m.len() as int].0 == p.name@);
    }
}

/// A partial pass extends the map; when it assigned anything, some project that had no
/// tier before the pass has one.
proof fn lemma_pass_upto(
    ps: Seq<ProjectFile>,
    names: Seq<Seq<char>>,
    cycles: Seq<Seq<Seq<char>>>,
    m: TierEntries,
    i: nat,
)
    requires
        i <= ps.len(),
    ensures
        extends(m, pass_upto(ps, names, cycles, m, i)),
        pass_upto(ps, names, cycles, m, i).len() > m.len() ==> exists|w: int|
            0 <= w < i && tier_of(m, ps[w].name@) is None && tier_of(
                pass_upto(ps, names, cycles, m, i),
                #[trigger] ps[w].name@,
            ) is Some,
    decreases i,
{
    if i > 0 {
        let prev = pass_upto(ps, names, cycles, m, (i - 1) as nat);
        let cur = pass_upto(ps, names, cycles, m, i);
        lemma_pass_upto(ps, names, cycles, m, (i - 1) as nat);
        lemma_step_extends(prev, ps[i - 1], names, cycles);
        if prev.len() > m.len() {
            let w = choose|w: int|
                0 <= w < i - 1 && tier_of(m, ps[w].name@) is None && tier_of(
                    prev,
                    #[trigger] ps[w].name@,
                ) is Some;
            lemma_extends_keeps(prev, cur, ps[w].name@);
        } else if cur.len() > m.len() {
            let x = ps[i - 1].name@;
            assert(prev.len() == m.len());
            assert(prev =~= m);
            assert(tier_of(m, ps[i - 1].name@) is None);
        }
    }
}

/// A pass that assigns lowers the count of projects without a tier.
proof fn lemma_pass_progress(
    ps: Seq<ProjectFile>,
    names: Seq<Seq<char>>,
    cycles: Seq<Seq<Seq<char>>>,
    m: TierEntries,
)
    ensures
        extends(m, tier_pass(ps, names, cycles, m)),
        tier_pass(ps, names, cycles, m).len() > m.len() ==> unassigned(
            ps,
            tier_pass(ps, names, cycles, m),
            ps.len(),
        ) < unassigned(ps, m, ps.len()),
{
    let next = tier_pass(ps, names, cycles, m);
    lemma_pass_upto(ps, names, cycles, m, ps.len());
    if next.len() > m.len() {
        let w = choose|w: int|
            0 <= w < ps.len() && tier_of(m, ps[w].name@) is None && tier_of(
                next,
                #[trigger] ps[w].name@,
            ) is Some;
        lemma_unassigned_mono(ps, m, next, ps.len(), w);
    } else {
        lemma_unassigned_mono(ps, m, next, ps.len(), -1);
    }
}

/// With more fuel than projects without a tier, `settle` reaches the same map.
pub proof fn lemma_settle_enough(
    ps: Seq<ProjectFile>,
    names: Seq<Seq<char>>,
    cycles: Seq<Seq<Seq<char>>>,
    m: TierEntries,
    f: nat,
)
    requires
        f > unassigned(ps, m, ps.len()),
    ensures
        settle(ps, names, cycles, m, f) == settle(
            ps,
            names,
            cycles,
            m,
            unassigned(ps, m, ps.len()) + 1,
        ),
        tier_pass(ps, names, cycles, settle(ps, names, cycles, m, f)).len() == settle(
            ps,
            names,
            cycles,
            m,
            f,
        ).len(),
    decreases f,
{
    let u = unassigned(ps, m, ps.len());
    let next = tier_pass(ps, names, cycles, m);
    lemma_pass_progress(ps, names, cycles, m);
    if next.len() != m.len() {
        let u2 = unassigned(ps, next, ps.len());
        lemma_settle_enough(ps, names, cycles, next, (f - 1) as nat);
        lemma_settle_enough(ps, names, cycles, next, u);
    }
}

/// The first project named `x`, if any.
pub open spec fn is_named(ps: Seq<ProjectFile>, x: Seq<char>) -> spec_fn(int) -> bool {
    |i: int| ps[i].name@ == x
}

/// The first of the projects named `x`.
pub open spec fn project_named(ps: Seq<ProjectFile>, x: Seq<char>) -> Option<int> {
    first_index(ps.len(), is_named(ps, x))
}

/// The highest tier among the first `k` reference names that have one, or -1.
pub open spec fn refs_top(m: TierEntries, refs: Seq<Seq<char>>, k: nat) -> int
    decreases k,
{
    if k == 0 {
        -1
    } else {
        let prev = refs_top(m, refs, (k - 1) as nat);
        match tier_of(m, refs[k - 1]) {
            Some(t) => if t > prev {
                t
            } else {
                prev
            },
            None => prev,
        }
    }
}

/// The highest tier that the first `k` members of a cycle reach through the references of
/// the first project of each member's name, or -1.
pub open spec fn group_top(m: TierEntries, ps: Seq<ProjectFile>, group: Seq<Seq<char>>, k: nat) -> int
    decreases k,
{
    if k == 0 {
        -1
    } else {
        let prev = group_top(m, ps, group, (k - 1) as nat);
        match project_named(ps, group[k - 1]) {
            Some(i) => {
                let t = refs_top(m, ref_names(ps[i]), ref_names(ps[i]).len());
                if t > prev {
                    t
                } else {
                    prev
                }
            },
            None => prev,
        }
    }
}

/// The map with the first `k` members of `group` set to tier `t`, in turn.
pub open spec fn set_tiers(m: TierEntries, group: Seq<Seq<char>>, t: int, k: nat) -> TierEntries
    decreases k,
{
    if k == 0 {
        m
    } else {
        set_tier(set_tiers(m, group, t, (k - 1) as nat), group[k - 1], t)
    }
}

/// The map after the first `g` cycles were placed, in turn, one tier above the highest tier
/// their members reach (tier 0 when they reach none).
pub open spec fn place_cycles(
    m: TierEntries,
    ps: Seq<ProjectFile>,
    cycles: Seq<Seq<Seq<char>>>,
    g: nat,
) -> TierEntries
    decreases g,
{
    if g == 0 {
        m
    } else {
        let before = place_cycles(m, ps, cycles, (g - 1) as nat);
        let group = cycles[g - 1];
        set_tiers(before, group, group_top(before, ps, group, group.len()) + 1, group.len())
    }
}

/// The highest tier among the first `k` entries, or 0.
pub open spec fn top_tier(m: TierEntries, k: nat) -> int
    decreases k,
{
    if k == 0 {
        0
    } else if m[k - 1].1 > top_tier(m, (k - 1) as nat) {
        m[k - 1].1
    } else {
        top_tier(m, (k - 1) as nat)
    }
}

/// The names of the first `k` entries with tier `t`, in map order.
pub open spec fn names_at(m: TierEntries, t: int, k: nat) -> Seq<Seq<char>>
    decreases k,
{
    if k == 0 {
        Seq::empty()
    } else if m[k - 1].1 == t {
        names_at(m, t, (k - 1) as nat).push(m[k - 1].0)
    } else {
        names_at(m, t, (k - 1) as nat)
    }
}

/// The tier buckets of a map: one per tier up to the highest, each with its names sorted.
pub open spec fn buckets(m: TierEntries) -> Seq<Seq<Seq<char>>> {
    Seq::new((top_tier(m, m.len()) + 1) as nat, |t: int| sort_names(names_at(m, t, m.len())))
}

/// The value of a tier map held as strings and tiers.
pub open spec fn entries(m: Seq<(String, usize)>) -> TierEntries {
    m.map_values(|e: (String, usize)| (e.0@, e.1 as int))
}

/// The values of groups of strings.
pub open spec fn group_views(gs: Seq<Vec<String>>) -> Seq<Seq<Seq<char>>> {
    gs.map_values(|g: Vec<String>| string_views(g@))
}

/// The projects at the positions `idx`, in that order.
pub open spec fn picked(ps: Seq<ProjectFile>, idx: Seq<usize>) -> Seq<ProjectFile> {
    idx.map_values(|i: usize| ps[i as int])
}

/// Every tier in the map is at most `b`.
pub open spec fn tiers_at_most(m: Seq<(String, usize)>, b: int) -> bool {
    forall|k: int| 0 <= k < m.len() ==> (#[trigger] m[k]).1 <= b
}

proof fn lemma_entries_push(m: Seq<(String, usize)>, e: (String, usize))
    ensures
        entries(m.push(e)) == entries(m).push((e.0@, e.1 as int)),
{
    assert(entries(m.push(e)) =~= entries(m).push((e.0@, e.1 as int)));
}

/// The position of `name`'s entry in the map, if it has one.
fn find_entry(m: &Vec<(String, usize)>, name: &str) -> (r: Option<usize>)
    ensures
        r is Some <==> entry_at(entries(m@), name@) is Some,
        r is Some ==> r.unwrap() as int == entry_at(entries(m@), name@)->0,
{
    let ghost em = entries(m@);
    let ghost p = is_entry_of(em, name@);
    let mut j: usize = 0;
    while j < m.len()
        invariant
            j <= m@.len(),
            em == entries(m@),
            p == is_entry_of(em, name@),
            first_index(j as nat, p) is None,
        decreases m@.len() - j,
    {
        let hit = str_eq(m[j].0.as_str(), name);
        proof {
            lemma_first_index_step(j as nat, p);
            assert(p(j as int) == hit);
        }
        if hit {
            proof {
                lemma_first_index_extends(j as nat + 1, m@.len() as nat, p);
            }
            return Some(j);
        }
        j = j + 1;
    }
    None
}

/// Once `first_index` has found an index, looking further finds the same one.
proof fn lemma_first_index_extends(a: nat, b: nat, p: spec_fn(int) -> bool)
    requires
        a <= b,
        first_index(a, p) is Some,
    ensures
        first_index(b, p) == first_index(a, p),
    decreases b,
{
    if b > a {
        lemma_first_index_extends(a, (b - 1) as nat, p);
    }
}

/// The tier of `name`, if it has one.
fn find_tier(m: &Vec<(String, usize)>, name: &str) -> (r: Option<usize>)
    ensures
        r is Some <==> tier_of(entries(m@), name@) is Some,
        r is Some ==> r.unwrap() as int == tier_of(entries(m@), name@)->0,
        r is Some ==> exists|k: int| 0 <= k < m@.len() && r.unwrap() == (#[trigger] m@[k]).1,
{
    match find_entry(m, name) {
        Some(i) => {
            proof {
                lemma_entry_at(entries(m@), name@);
            }
            Some(m[i].1)
        },
        None => None,
    }
}

/// Sets the tier of `name` to `t`: in place when it has one, else appended.
fn put_tier(m: &mut Vec<(String, usize)>, name: String, t: usize)
    ensures
        entries(final(m)@) == set_tier(entries(old(m)@), name@, t as int),
        forall|k: int|
            0 <= k < final(m)@.len() ==> (#[trigger] final(m)@[k]).1 == t || (k < old(m)@.len()
                && final(m)@[k].1 == old(m)@[k].1),
        final(m)@.len() >= old(m)@.len(),
{
    let ghost before = m@;
    match find_entry(m, name.as_str()) {
        Some(i) => {
            proof {
                lemma_entry_at(entries(m@), name@);
            }
            m.set(i, (name, t));
            proof {
                assert(entries(m@) =~= set_tier(entries(before), name@, t as int));
            }
        },
        None => {
            let ghost nv = name@;
            m.push((name, t));
            proof {
                lemma_entries_push(before, m@[before.len() as int]);
                assert(entries(m@) =~= set_tier(entries(before), nv, t as int));
            }
        },
    }
}

/// Whether `x` is one of the names of `v`.
pub fn contains_name(v: &Vec<String>, x: &str) -> (r: bool)
    ensures
        r == string_views(v@).contains(x@),
{
    let ghost sv = string_views(v@);
    let mut j: usize = 0;
    while j < v.len()
        invariant
            j <= v@.len(),
            sv == string_views(v@),
            forall|k: int| 0 <= k < j ==> sv[k] != x@,
        decreases v@.len() - j,
    {
        if str_eq(v[j].as_str(), x) {
            proof {
                assert(sv[j as int] == x@);
            }
            return true;
        }
        j = j + 1;
    }
    false
}

/// Whether `x` is a member of one of the groups.
pub fn in_cycle_groups(groups: &Vec<Vec<String>>, x: &str) -> (r: bool)
    ensures
        r == in_groups(group_views(groups@), x@),
{
    let ghost gv = group_views(groups@);
    let mut g: usize = 0;
    while g < groups.len()
        invariant
            g <= groups@.len(),
            gv == group_views(groups@),
            forall|a: int, j: int| 0 <= a < g && 0 <= j < gv[a].len() ==> gv[a][j] != x@,
        decreases groups@.len() - g,
    {
        if contains_name(&groups[g], x) {
            proof {
                let j = choose|j: int| 0 <= j < gv[g as int].len() && gv[g as int][j] == x@;
                assert(gv[g as int][j] == x@);
            }
            return true;
        }
        g = g + 1;
    }
    false
}

proof fn lemma_deps_ready_step(
    m: TierEntries,
    refs: Seq<Seq<char>>,
    names: Seq<Seq<char>>,
    cycles: Seq<Seq<Seq<char>>>,
    j: nat,
)
    requires
        j < refs.len(),
    ensures
        deps_ready(m, refs, names, cycles, j + 1) == (deps_ready(m, refs, names, cycles, j) && (
        is_tier_dep(refs[j as int], names, cycles) ==> tier_of(m, refs[j as int]) is Some)),
{
    if !deps_ready(m, refs, names, cycles, j) {
        let q = choose|q: int|
            0 <= q < j && is_tier_dep(#[trigger] refs[q], names, cycles) && !(tier_of(
                m,
                refs[q],
            ) is Some);
        assert(!deps_ready(m, refs, names, cycles, j + 1));
    }
}

/// Whether every dependency of `p` has a tier, and the highest of their tiers.
fn deps_state(
    p: &ProjectFile,
    names: &Vec<String>,
    cycles: &Vec<Vec<String>>,
    m: &Vec<(String, usize)>,
) -> (r: (bool, Option<usize>))
    ensures
        r.0 == deps_ready(
            entries(m@),
            ref_names(*p),
            string_views(names@),
            group_views(cycles@),
            p.project_refs@.len(),
        ),
        r.1 is None <==> deps_top(
            entries(m@),
            ref_names(*p),
            string_views(names@),
            group_views(cycles@),
            p.project_refs@.len(),
        ) == -1,
        r.1 is Some ==> r.1.unwrap() as int == deps_top(
            entries(m@),
            ref_names(*p),
            string_views(names@),
            group_views(cycles@),
            p.project_refs@.len(),
        ),
        r.1 is Some ==> exists|k: int| 0 <= k < m@.len() && r.1.unwrap() == (#[trigger] m@[k]).1,
{
    let ghost em = entries(m@);
    let ghost refs = ref_names(*p);
    let ghost nv = string_views(names@);
    let ghost cv = group_views(cycles@);
    let mut ready = true;
    let mut top: Option<usize> = None;
    let mut j: usize = 0;
    while j < p.project_refs.len()
        invariant
            j <= p.project_refs@.len(),
            em == entries(m@),
            refs == ref_names(*p),
            nv == string_views(names@),
            cv == group_views(cycles@),
            ready == deps_ready(em, refs, nv, cv, j as nat),
            top is None <==> deps_top(em, refs, nv, cv, j as nat) == -1,
            top is Some ==> top.unwrap() as int == deps_top(em, refs, nv, cv, j as nat),
            top is Some ==> exists|k: int| 0 <= k < m@.len() && top.unwrap() == (#[trigger] m@[k]).1,
        decreases p.project_refs@.len() - j,
    {
        let r = graph_target(&p.project_refs[j]);
        proof {
            assert(refs[j as int] == r@);
        }
        let dep = contains_name(names, r.as_str()) && !in_cycle_groups(cycles, r.as_str());
        proof {
            assert(dep == is_tier_dep(refs[j as int], nv, cv));
        }
        let ghost ready_before = ready;
        if dep {
            match find_tier(m, r.as_str()) {
                None => {
                    ready = false;
                },
                Some(t) => {
                    match top {
                        None => {
                            top = Some(t);
                        },
                        Some(x) => {
                            if t > x {
                                top = Some(t);
                            }
                        },
                    }
                },
            }
        }
        proof {
            assert(ready == (ready_before && (is_tier_dep(refs[j as int], nv, cv) ==> tier_of(
                em,
                refs[j as int],
            ) is Some)));
            lemma_deps_ready_step(em, refs, nv, cv, j as nat);
        }
        j = j + 1;
    }
    (ready, top)
}

/// The position of `i` among the picked projects is the picked project.
proof fn lemma_picked(ps: Seq<ProjectFile>, idx: Seq<usize>, i: int)
    requires
        0 <= i < idx.len(),
    ensures
        picked(ps, idx)[i] == ps[idx[i] as int],
        picked(ps, idx).len() == idx.len(),
{
}

/// Runs one tier pass over the picked projects.
fn run_pass(
    ps: &[ProjectFile],
    idx: &Vec<usize>,
    names: &Vec<String>,
    cycles: &Vec<Vec<String>>,
    m: &mut Vec<(String, usize)>,
)
    requires
        forall|k: int| 0 <= k < idx@.len() ==> (#[trigger] idx@[k]) < ps@.len(),
        tiers_at_most(old(m)@, old(m)@.len() - 1),
        old(m)@.len() + unassigned(picked(ps@, idx@), entries(old(m)@), idx@.len()) <= idx@.len(),
    ensures
        entries(final(m)@) == tier_pass(
            picked(ps@, idx@),
            string_views(names@),
            group_views(cycles@),
            entries(old(m)@),
        ),
        tiers_at_most(final(m)@, final(m)@.len() - 1),
        final(m)@.len() + unassigned(picked(ps@, idx@), entries(final(m)@), idx@.len())
            <= idx@.len(),
{
    let ghost nt = picked(ps@, idx@);
    let ghost nv = string_views(names@);
    let ghost cv = group_views(cycles@);
    let ghost m0 = entries(m@);
    let mut i: usize = 0;
    while i < idx.len()
        invariant
            i <= idx@.len(),
            nt == picked(ps@, idx@),
            nt.len() == idx@.len(),
            nv == string_views(names@),
            cv == group_views(cycles@),
            forall|k: int| 0 <= k < idx@.len() ==> (#[trigger] idx@[k]) < ps@.len(),
            entries(m@) == pass_upto(nt, nv, cv, m0, i as nat),
            tiers_at_most(m@, m@.len() - 1),
            m@.len() + unassigned(nt, entries(m@), nt.len()) <= nt.len(),
        decreases idx@.len() - i,
    {
        let p = &ps[idx[i]];
        proof {
            lemma_picked(ps@, idx@, i as int);
        }
        let ghost before = m@;
        if find_entry(m, p.name.as_str()).is_none() && !in_cycle_groups(cycles, p.name.as_str()) {
            proof {
                lemma_entry_at(entries(m@), p.name@);
            }
            let st = deps_state(p, names, cycles, m);
            if st.0 {
                let t: usize = match st.1 {
                    None => 0,
                    Some(x) => x + 1,
                };
                m.push((p.name.clone(), t));
                proof {
                    lemma_entries_push(before, m@[before.len() as int]);
                    let after = entries(m@);
                    assert(extends(entries(before), after));
                    lemma_entry_at(after, p.name@);
                    assert(after[before.len() as int].0 == p.name@);
                    assert(tier_of(after, nt[i as int].name@) is Some);
                    lemma_unassigned_mono(nt, entries(before), after, nt.len(), i as int);
                    assert forall|k: int| 0 <= k < m@.len() implies (#[trigger] m@[k]).1 <= m@.len()
                        - 1 by {
                        if k < before.len() {
                            assert(before[k] == m@[k]);
                        }
                    }
                }
            }
        }
        i = i + 1;
    }
}

/// The tiers that passes reach from no tiers at all, for the picked projects.
pub(crate) fn settle_tiers(
    ps: &[ProjectFile],
    idx: &Vec<usize>,
    names: &Vec<String>,
    cycles: &Vec<Vec<String>>,
) -> (m: Vec<(String, usize)>)
    requires
        forall|k: int| 0 <= k < idx@.len() ==> (#[trigger] idx@[k]) < ps@.len(),
    ensures
        entries(m@) == settled_tiers(picked(ps@, idx@), string_views(names@), group_views(cycles@)),
        tiers_at_most(m@, m@.len() - 1),
        m@.len() <= idx@.len(),
{
    let ghost nt = picked(ps@, idx@);
    let ghost nv = string_views(names@);
    let ghost cv = group_views(cycles@);
    let ghost target = settled_tiers(nt, nv, cv);
    let mut m: Vec<(String, usize)> = Vec::new();
    proof {
        assert(entries(m@) =~= Seq::<(Seq<char>, int)>::empty());
        lemma_unassigned_bound(nt, entries(m@), nt.len());
    }
    let mut changed = true;
    while changed
        invariant
            nt == picked(ps@, idx@),
            nt.len() == idx@.len(),
            nv == string_views(names@),
            cv == group_views(cycles@),
            target == settled_tiers(nt, nv, cv),
            forall|k: int| 0 <= k < idx@.len() ==> (#[trigger] idx@[k]) < ps@.len(),
            settle(nt, nv, cv, entries(m@), unassigned(nt, entries(m@), nt.len()) + 1) == target,
            !changed ==> tier_pass(nt, nv, cv, entries(m@)).len() == entries(m@).len(),
            tiers_at_most(m@, m@.len() - 1),
            m@.len() + unassigned(nt, entries(m@), nt.len()) <= nt.len(),
        decreases unassigned(nt, entries(m@), nt.len()) + if changed {
            1nat
        } else {
            0nat
        },
    {
        let ghost before = entries(m@);
        let n0 = m.len();
        run_pass(ps, idx, names, cycles, &mut m);
        changed = m.len() > n0;
        proof {
            let after = entries(m@);
            lemma_pass_progress(nt, nv, cv, before);
            let u = unassigned(nt, before, nt.len());
            if changed {
                lemma_settle_enough(nt, nv, cv, after, u);
            } else {
                assert(after =~= before);
            }
        }
    }
    proof {
        let u = unassigned(nt, entries(m@), nt.len());
        assert(settle(nt, nv, cv, entries(m@), u + 1) == entries(m@));
    }
    m
}

/// The highest tier among the reference names of `p` that have one.
fn refs_top_of(p: &ProjectFile, m: &Vec<(String, usize)>) -> (r: Option<usize>)
    ensures
        r is None <==> refs_top(entries(m@), ref_names(*p), p.project_refs@.len()) == -1,
        r is Some ==> r.unwrap() as int == refs_top(entries(m@), ref_names(*p), p.project_refs@.len()),
        r is Some ==> exists|k: int| 0 <= k < m@.len() && r.unwrap() == (#[trigger] m@[k]).1,
{
    let ghost em = entries(m@);
    let ghost refs = ref_names(*p);
    let mut top: Option<usize> = None;
    let mut j: usize = 0;
    while j < p.project_refs.len()
        invariant
            j <= p.project_refs@.len(),
            em == entries(m@),
            refs == ref_names(*p),
            top is None <==> refs_top(em, refs, j as nat) == -1,
            top is Some ==> top.unwrap() as int == refs_top(em, refs, j as nat),
            top is Some ==> exists|k: int| 0 <= k < m@.len() && top.unwrap() == (#[trigger] m@[k]).1,
        decreases p.project_refs@.len() - j,
    {
        let r = graph_target(&p.project_refs[j]);
        proof {
            assert(refs[j as int] == r@);
        }
        match find_tier(m, r.as_str()) {
            None => {},
            Some(t) => {
                match top {
                    None => {
                        top = Some(t);
                    },
                    Some(x) => {
                        if t > x {
                            top = Some(t);
                        }
                    },
                }
            },
        }
        j = j + 1;
    }
    top
}

/// The position, among the picked projects, of the first one named `x`.
fn first_named(ps: &[ProjectFile], idx: &Vec<usize>, x: &str) -> (r: Option<usize>)
    requires
        forall|k: int| 0 <= k < idx@.len() ==> (#[trigger] idx@[k]) < ps@.len(),
    ensures
        r is Some <==> project_named(picked(ps@, idx@), x@) is Some,
        r is Some ==> r.unwrap() as int == project_named(picked(ps@, idx@), x@)->0,
        r is Some ==> r.unwrap() < idx@.len(),
{
    let ghost nt = picked(ps@, idx@);
    let ghost p = is_named(nt, x@);
    let mut j: usize = 0;
    while j < idx.len()
        invariant
            j <= idx@.len(),
            nt == picked(ps@, idx@),
            nt.len() == idx@.len(),
            p == is_named(nt, x@),
            forall|k: int| 0 <= k < idx@.len() ==> (#[trigger] idx@[k]) < ps@.len(),
            first_index(j as nat, p) is None,
        decreases idx@.len() - j,
    {
        let hit = str_eq(ps[idx[j]].name.as_str(), x);
        proof {
            lemma_picked(ps@, idx@, j as int);
            lemma_first_index_step(j as nat, p);
            assert(p(j as int) == hit);
        }
        if hit {
            proof {
                lemma_first_index_extends(j as nat + 1, idx@.len() as nat, p);
            }
            return Some(j);
        }
        j = j + 1;
    }
    None
}

/// The highest tier that the members of `group` reach.
fn group_top_of(
    ps: &[ProjectFile],
    idx: &Vec<usize>,
    group: &Vec<String>,
    m: &Vec<(String, usize)>,
) -> (r: Option<usize>)
    requires
        forall|k: int| 0 <= k < idx@.len() ==> (#[trigger] idx@[k]) < ps@.len(),
    ensures
        r is None <==> group_top(entries(m@), picked(ps@, idx@), string_views(group@), group@.len())
            == -1,
        r is Some ==> r.unwrap() as int == group_top(
            entries(m@),
            picked(ps@, idx@),
            string_views(group@),
            group@.len(),
        ),
        r is Some ==> exists|k: int| 0 <= k < m@.len() && r.unwrap() == (#[trigger] m@[k]).1,
{
    let ghost em = entries(m@);
    let ghost nt = picked(ps@, idx@);
    let ghost gv = string_views(group@);
    let mut top: Option<usize> = None;
    let mut k: usize = 0;
    while k < group.len()
        invariant
            k <= group@.len(),
            em == entries(m@),
            nt == picked(ps@, idx@),
            gv == string_views(group@),
            forall|q: int| 0 <= q < idx@.len() ==> (#[trigger] idx@[q]) < ps@.len(),
            top is None <==> group_top(em, nt, gv, k as nat) == -1,
            top is Some ==> top.unwrap() as int == group_top(em, nt, gv, k as nat),
            top is Some ==> exists|q: int| 0 <= q < m@.len() && top.unwrap() == (#[trigger] m@[q]).1,
        decreases group@.len() - k,
    {
        match first_named(ps, idx, group[k].as_str()) {
            None => {},
            Some(i) => {
                proof {
                    lemma_picked(ps@, idx@, i as int);
                }
                match refs_top_of(&ps[idx[i]], m) {
                    None => {},
                    Some(t) => {
                        match top {
                            None => {
                                top = Some(t);
                            },
                            Some(x) => {
                                if t > x {
                                    top = Some(t);
                                }
                            },
                        }
                    },
                }
            },
        }
        k = k + 1;
    }
    top
}

/// Places each cycle, in turn, one tier above the highest tier its members reach.
pub(crate) fn place_cycle_groups(
    ps: &[ProjectFile],
    idx: &Vec<usize>,
    cycles: &Vec<Vec<String>>,
    m: &mut Vec<(String, usize)>,
    bound: usize,
)
    requires
        forall|k: int| 0 <= k < idx@.len() ==> (#[trigger] idx@[k]) < ps@.len(),
        tiers_at_most(old(m)@, bound as int),
        bound + cycles@.len() < usize::MAX,
    ensures
        entries(final(m)@) == place_cycles(
            entries(old(m)@),
            picked(ps@, idx@),
            group_views(cycles@),
            cycles@.len(),
        ),
        tiers_at_most(final(m)@, bound + cycles@.len()),
{
    let ghost nt = picked(ps@, idx@);
    let ghost cv = group_views(cycles@);
    let ghost m0 = entries(m@);
    let mut g: usize = 0;
    while g < cycles.len()
        invariant
            g <= cycles@.len(),
            nt == picked(ps@, idx@),
            cv == group_views(cycles@),
            forall|k: int| 0 <= k < idx@.len() ==> (#[trigger] idx@[k]) < ps@.len(),
            bound + cycles@.len() < usize::MAX,
            entries(m@) == place_cycles(m0, nt, cv, g as nat),
            tiers_at_most(m@, bound + g),
        decreases cycles@.len() - g,
    {
        let group = &cycles[g];
        let ghost before = entries(m@);
        let t: usize = match group_top_of(ps, idx, group, m) {
            None => 0,
            Some(x) => x + 1,
        };
        proof {
            assert(cv[g as int] == string_views(group@));
        }
        let mut k: usize = 0;
        while k < group.len()
            invariant
                k <= group@.len(),
                cv[g as int] == string_views(group@),
                entries(m@) == set_tiers(before, string_views(group@), t as int, k as nat),
                t <= bound + g + 1,
                tiers_at_most(m@, bound + g + 1),
            decreases group@.len() - k,
        {
            let ghost prev = m@;
            put_tier(m, group[k].clone(), t);
            proof {
                assert forall|q: int| 0 <= q < m@.len() implies (#[trigger] m@[q]).1 <= bound + g + 1 by {
                    if m@[q].1 != t {
                        assert(prev[q] == prev[q]);
                    }
                }
            }
            k = k + 1;
        }
        g = g + 1;
    }
}

/// The tier buckets of a map: one per tier up to the highest, each with its names sorted.
pub(crate) fn tier_buckets(m: &Vec<(String, usize)>, bound: usize) -> (r: Vec<Vec<String>>)
    requires
        tiers_at_most(m@, bound as int),
        bound < usize::MAX,
    ensures
        group_views(r@) == buckets(entries(m@)),
{
    let ghost em = entries(m@);
    let mut top: usize = 0;
    let mut k: usize = 0;
    while k < m.len()
        invariant
            k <= m@.len(),
            em == entries(m@),
            tiers_at_most(m@, bound as int),
            top as int == top_tier(em, k as nat),
            top <= bound,
        decreases m@.len() - k,
    {
        if m[k].1 > top {
            top = m[k].1;
        }
        proof {
            assert(m@[k as int].1 <= bound);
        }
        k = k + 1;
    }
    let mut out: Vec<Vec<String>> = Vec::new();
    let mut t: usize = 0;
    while t < top + 1
        invariant
            t <= top + 1,
            top < usize::MAX,
            em == entries(m@),
            top as int == top_tier(em, em.len()),
            group_views(out@) == buckets(em).take(t as int),
        decreases top + 1 - t,
    {
        let mut bucket: Vec<String> = Vec::new();
        let mut j: usize = 0;
        proof {
            assert(string_views(bucket@) =~= sort_names(names_at(em, t as int, 0)));
        }
        while j < m.len()
            invariant
                j <= m@.len(),
                em == entries(m@),
                string_views(bucket@) == sort_names(names_at(em, t as int, j as nat)),
            decreases m@.len() - j,
        {
            if m[j].1 == t {
                insert_name_sorted(&mut bucket, m[j].0.clone());
                proof {
                    let cur = names_at(em, t as int, j as nat + 1);
                    assert(cur.drop_last() =~= names_at(em, t as int, j as nat));
                }
            }
            j = j + 1;
        }
        let ghost prev = out@;
        out.push(bucket);
        proof {
            assert(group_views(out@) =~= group_views(prev).push(string_views(bucket@)));
            assert(group_views(out@) =~= buckets(em).take(t + 1));
        }
        t = t + 1;
    }
    proof {
        assert(buckets(em).take(top + 1) =~= buckets(em));
    }
    out
}

/// Extending a map keeps the tiers of dependencies that all had one, and so their highest.
proof fn lemma_deps_extend(
    a: TierEntries,
    b: TierEntries,
    refs: Seq<Seq<char>>,
    names: Seq<Seq<char>>,
    cycles: Seq<Seq<Seq<char>>>,
    k: nat,
)
    requires
        extends(a, b),
        k <= refs.len(),
        deps_ready(a, refs, names, cycles, k),
    ensures
        deps_ready(b, refs, names, cycles, k),
        deps_top(b, refs, names, cycles, k) == deps_top(a, refs, names, cycles, k),
    decreases k,
{
    assert forall|j: int|
        0 <= j < k && is_tier_dep(#[trigger] refs[j], names, cycles) implies tier_of(
        b,
        refs[j],
    ) is Some by {
        lemma_extends_keeps(a, b, refs[j]);
    }
    if k > 0 {
        lemma_deps_extend(a, b, refs, names, cycles, (k - 1) as nat);
        let r = refs[k - 1];
        if is_tier_dep(r, names, cycles) {
            lemma_extends_keeps(a, b, r);
        }
    }
}

/// Entry `k` of the map is project `i`, outside every cycle, one tier above the highest
/// tier of its dependencies, all of which have a tier.
pub open spec fn depth_witness(
    m: TierEntries,
    ps: Seq<ProjectFile>,
    names: Seq<Seq<char>>,
    cycles: Seq<Seq<Seq<char>>>,
    k: int,
    i: int,
) -> bool {
    &&& 0 <= i < ps.len()
    &&& ps[i].name@ == m[k].0
    &&& !in_groups(cycles, m[k].0)
    &&& deps_ready(m, ref_names(ps[i]), names, cycles, ref_names(ps[i]).len())
    &&& m[k].1 == deps_top(m, ref_names(ps[i]), names, cycles, ref_names(ps[i]).len()) + 1
}

/// Every entry of the map is one of the projects, outside every cycle, one tier above the
/// highest tier of its dependencies, all of which have a tier.
pub open spec fn tiers_are_depths(
    m: TierEntries,
    ps: Seq<ProjectFile>,
    names: Seq<Seq<char>>,
    cycles: Seq<Seq<Seq<char>>>,
) -> bool {
    forall|k: int| 0 <= k < m.len() ==> #[trigger] entry_is_depth(m, ps, names, cycles, k)
}

/// Entry `k` of the map is one of the projects at its depth.
pub open spec fn entry_is_depth(
    m: TierEntries,
    ps: Seq<ProjectFile>,
    names: Seq<Seq<char>>,
    cycles: Seq<Seq<Seq<char>>>,
    k: int,
) -> bool {
    exists|i: int| #[trigger] depth_witness(m, ps, names, cycles, k, i)
}

proof fn lemma_depths_extend(
    a: TierEntries,
    b: TierEntries,
    ps: Seq<ProjectFile>,
    names: Seq<Seq<char>>,
    cycles: Seq<Seq<Seq<char>>>,
)
    requires
        tiers_are_depths(a, ps, names, cycles),
        extends(a, b),
        forall|k: int| a.len() <= k < b.len() ==> #[trigger] entry_is_depth(b, ps, names, cycles, k),
    ensures
        tiers_are_depths(b, ps, names, cycles),
{
    assert forall|k: int| 0 <= k < b.len() implies #[trigger] entry_is_depth(b, ps, names, cycles, k) by {
        if k < a.len() {
            assert(b[k] == a[k]);
            assert(entry_is_depth(a, ps, names, cycles, k));
            let i = choose|i: int| #[trigger] depth_witness(a, ps, names, cycles, k, i);
            lemma_deps_extend(a, b, ref_names(ps[i]), names, cycles, ref_names(ps[i]).len());
            assert(depth_witness(b, ps, names, cycles, k, i));
        }
    }
}

proof fn lemma_pass_depths(
    ps: Seq<ProjectFile>,
    names: Seq<Seq<char>>,
    cycles: Seq<Seq<Seq<char>>>,
    m: TierEntries,
    i: nat,
)
    requires
        i <= ps.len(),
        tiers_are_depths(m, ps, names, cycles),
    ensures
        tiers_are_depths(pass_upto(ps, names, cycles, m, i), ps, names, cycles),
    decreases i,
{
    if i > 0 {
        lemma_pass_depths(ps, names, cycles, m, (i - 1) as nat);
        let a = pass_upto(ps, names, cycles, m, (i - 1) as nat);
        let b = pass_upto(ps, names, cycles, m, i);
        lemma_step_extends(a, ps[i - 1], names, cycles);
        if b.len() > a.len() {
            let p = ps[i - 1];
            let refs = ref_names(p);
            lemma_deps_extend(a, b, refs, names, cycles, refs.len());
            assert(b[a.len() as int].0 == ps[i - 1].name@);
            assert(depth_witness(b, ps, names, cycles, a.len() as int, i - 1));
            assert(entry_is_depth(b, ps, names, cycles, a.len() as int));
        }
        lemma_depths_extend(a, b, ps, names, cycles);
    }
}

proof fn lemma_settle_depths(
    ps: Seq<ProjectFile>,
    names: Seq<Seq<char>>,
    cycles: Seq<Seq<Seq<char>>>,
    m: TierEntries,
    fuel: nat,
)
    requires
        tiers_are_depths(m, ps, names, cycles),
    ensures
        tiers_are_depths(settle(ps, names, cycles, m, fuel), ps, names, cycles),
    decreases fuel,
{
    if fuel > 0 {
        lemma_pass_depths(ps, names, cycles, m, ps.len());
        let next = tier_pass(ps, names, cycles, m);
        if next.len() != m.len() {
            lemma_settle_depths(ps, names, cycles, next, (fuel - 1) as nat);
        }
    }
}

/// Tiers are topological depths: every project that the passes place sits one tier above
/// the highest tier among its dependencies, all of which are placed (tier 0 without any).
pub proof fn law_tiers_are_depths(
    ps: Seq<ProjectFile>,
    names: Seq<Seq<char>>,
    cycles: Seq<Seq<Seq<char>>>,
)
    ensures
        tiers_are_depths(settled_tiers(ps, names, cycles), ps, names, cycles),
{
    lemma_settle_depths(ps, names, cycles, Seq::empty(), ps.len() + 1);
}

proof fn lemma_pass_stalled(
    ps: Seq<ProjectFile>,
    names: Seq<Seq<char>>,
    cycles: Seq<Seq<Seq<char>>>,
    m: TierEntries,
    i: nat,
)
    requires
        i <= ps.len(),
        pass_upto(ps, names, cycles, m, i).len() == m.len(),
    ensures
        pass_upto(ps, names, cycles, m, i) == m,
        forall|j: int|
            0 <= j < i ==> tier_step(m, #[trigger] ps[j], names, cycles).len() == m.len(),
    decreases i,
{
    lemma_pass_upto(ps, names, cycles, m, i);
    assert(pass_upto(ps, names, cycles, m, i) =~= m);
    if i > 0 {
        let a = pass_upto(ps, names, cycles, m, (i - 1) as nat);
        lemma_pass_upto(ps, names, cycles, m, (i - 1) as nat);
        lemma_step_extends(a, ps[i - 1], names, cycles);
        lemma_pass_stalled(ps, names, cycles, m, (i - 1) as nat);
    }
}

/// The passes stop only when no project can be placed: every project outside the cycles
/// either has a tier or has a dependency without one.
pub proof fn law_settled_tiers_complete(
    ps: Seq<ProjectFile>,
    names: Seq<Seq<char>>,
    cycles: Seq<Seq<Seq<char>>>,
    i: int,
)
    requires
        0 <= i < ps.len(),
        !in_groups(cycles, ps[i].name@),
    ensures
        tier_of(settled_tiers(ps, names, cycles), ps[i].name@) is Some || !deps_ready(
            settled_tiers(ps, names, cycles),
            ref_names(ps[i]),
            names,
            cycles,
            ref_names(ps[i]).len(),
        ),
{
    let m = settled_tiers(ps, names, cycles);
    lemma_unassigned_bound(ps, Seq::empty(), ps.len());
    lemma_settle_enough(ps, names, cycles, Seq::empty(), ps.len() + 1);
    lemma_pass_stalled(ps, names, cycles, m, ps.len());
    assert(tier_step(m, ps[i], names, cycles).len() == m.len());
}

/// No name has two entries.
pub open spec fn keys_unique(m: TierEntries) -> bool {
    forall|i: int, j: int| 0 <= i < j < m.len() ==> (#[trigger] m[i]).0 != (#[trigger] m[j]).0
}

proof fn lemma_set_tier_unique(m: TierEntries, name: Seq<char>, t: int)
    requires
        keys_unique(m),
    ensures
        keys_unique(set_tier(m, name, t)),
{
    lemma_entry_at(m, name);
    let r = set_tier(m, name, t);
    assert forall|i: int, j: int| 0 <= i < j < r.len() implies (#[trigger] r[i]).0 != (
    #[trigger] r[j]).0 by {
        if entry_at(m, name) is Some {
            let e = entry_at(m, name)->0;
            if i != e && j != e {
                assert(r[i] == m[i] && r[j] == m[j]);
            } else if i == e {
                assert(r[j] == m[j]);
                assert(m[i].0 == name);
            } else {
                assert(r[i] == m[i]);
                assert(m[j].0 == name);
            }
        } else {
            if j == m.len() {
                assert(r[i] == m[i]);
            } else {
                assert(r[i] == m[i] && r[j] == m[j]);
            }
        }
    }
}

proof fn lemma_pass_unique(
    ps: Seq<ProjectFile>,
    names: Seq<Seq<char>>,
    cycles: Seq<Seq<Seq<char>>>,
    m: TierEntries,
    i: nat,
)
    requires
        i <= ps.len(),
        keys_unique(m),
    ensures
        keys_unique(pass_upto(ps, names, cycles, m, i)),
    decreases i,
{
    if i > 0 {
        lemma_pass_unique(ps, names, cycles, m, (i - 1) as nat);
        let a = pass_upto(ps, names, cycles, m, (i - 1) as nat);
        let b = pass_upto(ps, names, cycles, m, i);
        if b.len() > a.len() {
            lemma_entry_at(a, ps[i - 1].name@);
            assert(b == set_tier(
                a,
                ps[i - 1].name@,
                deps_top(
                    a,
                    ref_names(ps[i - 1]),
                    names,
                    cycles,
                    ref_names(ps[i - 1]).len(),
                ) + 1,
            ));
            lemma_set_tier_unique(
                a,
                ps[i - 1].name@,
                deps_top(
                    a,
                    ref_names(ps[i - 1]),
                    names,
                    cycles,
                    ref_names(ps[i - 1]).len(),
                ) + 1,
            );
        }
    }
}

proof fn lemma_settle_unique(
    ps: Seq<ProjectFile>,
    names: Seq<Seq<char>>,
    cycles: Seq<Seq<Seq<char>>>,
    m: TierEntries,
    fuel: nat,
)
    requires
        keys_unique(m),
    ensures
        keys_unique(settle(ps, names, cycles, m, fuel)),
    decreases fuel,
{
    if fuel > 0 {
        lemma_pass_unique(ps, names, cycles, m, ps.len());
        let next = tier_pass(ps, names, cycles, m);
        if next.len() != m.len() {
            lemma_settle_unique(ps, names, cycles, next, (fuel - 1) as nat);
        }
    }
}

proof fn lemma_set_tiers_unique(m: TierEntries, group: Seq<Seq<char>>, t: int, k: nat)
    requires
        keys_unique(m),
    ensures
        keys_unique(set_tiers(m, group, t, k)),
    decreases k,
{
    if k > 0 {
        lemma_set_tiers_unique(m, group, t, (k - 1) as nat);
        lemma_set_tier_unique(set_tiers(m, group, t, (k - 1) as nat), group[k - 1], t);
    }
}

proof fn lemma_place_unique(
    m: TierEntries,
    ps: Seq<ProjectFile>,
    cycles: Seq<Seq<Seq<char>>>,
    g: nat,
)
    requires
        keys_unique(m),
    ensures
        keys_unique(place_cycles(m, ps, cycles, g)),
    decreases g,
{
    if g > 0 {
        lemma_place_unique(m, ps, cycles, (g - 1) as nat);
        let before = place_cycles(m, ps, cycles, (g - 1) as nat);
        let group = cycles[g - 1];
        lemma_set_tiers_unique(
            before,
            group,
            group_top(before, ps, group, group.len()) + 1,
            group.len(),
        );
    }
}

/// The tiers after the passes and the placement of the cycles have each name once.
pub proof fn law_placed_names_unique(
    ps: Seq<ProjectFile>,
    names: Seq<Seq<char>>,
    cycles: Seq<Seq<Seq<char>>>,
)
    ensures
        keys_unique(place_cycles(settled_tiers(ps, names, cycles), ps, cycles, cycles.len())),
{
    lemma_settle_unique(ps, names, cycles, Seq::empty(), ps.len() + 1);
    lemma_place_unique(settled_tiers(ps, names, cycles), ps, cycles, cycles.len());
}

proof fn lemma_names_at(m: TierEntries, t: int, k: nat)
    requires
        k <= m.len(),
        keys_unique(m),
    ensures
        names_at(m, t, k).no_duplicates(),
        forall|x: Seq<char>|
            names_at(m, t, k).contains(x) <==> exists|j: int|
                0 <= j < k && (#[trigger] m[j]).0 == x && m[j].1 == t,
    decreases k,
{
    if k > 0 {
        lemma_names_at(m, t, (k - 1) as nat);
        let prev = names_at(m, t, (k - 1) as nat);
        let cur = names_at(m, t, k);
        assert forall|x: Seq<char>| cur.contains(x) <==> exists|j: int|
            0 <= j < k && (#[trigger] m[j]).0 == x && m[j].1 == t by {
            if cur.contains(x) {
                let a = choose|a: int| 0 <= a < cur.len() && cur[a] == x;
                if a < prev.len() {
                    assert(prev[a] == x);
                    assert(prev.contains(x));
                } else {
                    assert(m[k - 1].0 == x && m[k - 1].1 == t);
                }
            }
            if exists|j: int| 0 <= j < k && (#[trigger] m[j]).0 == x && m[j].1 == t {
                let j = choose|j: int| 0 <= j < k && (#[trigger] m[j]).0 == x && m[j].1 == t;
                if j < k - 1 {
                    assert(prev.contains(x));
                    let a = choose|a: int| 0 <= a < prev.len() && prev[a] == x;
                    assert(cur[a] == x);
                } else {
                    assert(cur[cur.len() - 1] == x);
                }
            }
        }
        if m[k - 1].1 == t {
            assert(!prev.contains(m[k - 1].0)) by {
                if prev.contains(m[k - 1].0) {
                    let j = choose|j: int|
                        0 <= j < k - 1 && (#[trigger] m[j]).0 == m[k - 1].0 && m[j].1 == t;
                    assert(m[j].0 != m[k - 1].0);
                }
            }
            assert forall|a: int, b: int| 0 <= a < cur.len() && 0 <= b < cur.len() && a != b implies cur[a]
                != cur[b] by {
                if a < prev.len() && b < prev.len() {
                } else if a < prev.len() {
                    assert(prev.contains(cur[a]));
                } else if b < prev.len() {
                    assert(prev.contains(cur[b]));
                }
            }
        }
    }
}

/// With each name once in the map, every tier bucket is strictly sorted and holds exactly
/// the names with that tier.
pub proof fn law_buckets_sorted(m: TierEntries, t: int)
    requires
        keys_unique(m),
        0 <= t < buckets(m).len(),
    ensures
        crate::order::strictly_sorted(buckets(m)[t]),
        forall|x: Seq<char>| buckets(m)[t].contains(x) <==> tier_of(m, x) == Some(t),
{
    lemma_names_at(m, t, m.len());
    let s = names_at(m, t, m.len());
    crate::order::lemma_sort_names(s);
    assert forall|x: Seq<char>| buckets(m)[t].contains(x) <==> tier_of(m, x) == Some(t) by {
        lemma_entry_at(m, x);
        assert(buckets(m)[t] == crate::order::sort_names(s));
        assert(crate::order::sort_names(s).to_set().contains(x) == s.to_set().contains(x));
        if tier_of(m, x) == Some(t) {
            let e = entry_at(m, x)->0;
            assert(m[e].0 == x && m[e].1 == t);
        }
        if s.contains(x) {
            let j = choose|j: int| 0 <= j < m.len() && (#[trigger] m[j]).0 == x && m[j].1 == t;
            if let Some(e) = entry_at(m, x) {
                if e != j {
                    if e < j {
                        assert(m[e].0 != m[j].0);
                    } else {
                        assert(m[j].0 != x);
                    }
                }
            }
        }
    }
}

} // verus!
