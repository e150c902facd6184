//! The decisions of the `ark init` wizard: how tiers become confirmed layers as the user
//! names them and moves projects, and which rules the answers about the dependencies between layers become.

use vstd::prelude::*;

use crate::scaffold::{InterLayerEdge, LayerDef};
use vstd::multiset::Multiset;
use crate::report::string_views;
use crate::text::owned;

verus! {

/// The value of a layer: its name and its projects.
pub open spec fn layer_view(l: LayerDef) -> (Seq<char>, Seq<Seq<char>>) {
    (l.name@, names(l.projects@))
}

/// The values of a sequence of layers.
pub open spec fn layer_views(ls: Seq<LayerDef>) -> Seq<(Seq<char>, Seq<Seq<char>>)> {
    ls.map_values(|l: LayerDef| layer_view(l))
}

/// The values of a sequence of strings.
pub open spec fn names(s: Seq<String>) -> Seq<Seq<char>> {
    s.map_values(|x: String| x@)
}

/// The names of the confirmed layers.
pub open spec fn layer_names_of(ls: Seq<LayerDef>) -> Seq<Seq<char>> {
    ls.map_values(|l: LayerDef| l.name@)
}

proof fn lemma_names_push(s: Seq<String>, x: String)
    ensures
        names(s.push(x)) == names(s).push(x@),
{
    assert(names(s.push(x)) =~= names(s).push(x@));
}

proof fn lemma_layer_views_push(s: Seq<LayerDef>, x: LayerDef)
    ensures
        layer_views(s.push(x)) == layer_views(s).push(layer_view(x)),
{
    assert(layer_views(s.push(x)) =~= layer_views(s).push(layer_view(x)));
}

proof fn lemma_layer_names_push(s: Seq<LayerDef>, x: LayerDef)
    ensures
        layer_names_of(s.push(x)) == layer_names_of(s).push(x.name@),
{
    assert(layer_names_of(s.push(x)) =~= layer_names_of(s).push(x.name@));
}

proof fn lemma_layer_names_take_succ(s: Seq<LayerDef>, i: int)
    requires
        0 <= i < s.len(),
    ensures
        layer_names_of(s.take(i + 1)) == layer_names_of(s.take(i)).push(s[i].name@),
{
    assert(s.take(i + 1) =~= s.take(i).push(s[i]));
    lemma_layer_names_push(s.take(i), s[i]);
}

/// The layer wizard's state: the layers confirmed so far (bottom-up) and the projects moved
/// out of the first tier before any layer existed to receive them.
#[derive(Debug)]
pub struct LayerWizard {
    pub confirmed: Vec<LayerDef>,
    pub pending: Vec<String>,
}

/// `layers` with `p` added to the projects of layer `i`.
pub open spec fn with_project(
    layers: Seq<(Seq<char>, Seq<Seq<char>>)>,
    i: int,
    p: Seq<char>,
) -> Seq<(Seq<char>, Seq<Seq<char>>)> {
    layers.update(i, (layers[i].0, layers[i].1.push(p)))
}

/// `layers` after adding the first `n` of `projects` to the layers `dest` names, in order.
pub open spec fn with_projects(
    layers: Seq<(Seq<char>, Seq<Seq<char>>)>,
    projects: Seq<Seq<char>>,
    dest: Seq<usize>,
    n: nat,
) -> Seq<(Seq<char>, Seq<Seq<char>>)>
    decreases n,
{
    if n == 0 {
        layers
    } else {
        with_project(
            with_projects(layers, projects, dest, (n - 1) as nat),
            dest[n - 1] as int,
            projects[n - 1],
        )
    }
}

/// The projects of `tier` at the `selected` positions, in selection order.
pub open spec fn selected_projects(tier: Seq<Seq<char>>, selected: Seq<usize>) -> Seq<Seq<char>> {
    selected.map_values(|i: usize| tier[i as int])
}

proof fn lemma_selected_take_succ(tier: Seq<Seq<char>>, selected: Seq<usize>, k: int)
    requires
        0 <= k < selected.len(),
    ensures
        selected_projects(tier, selected.take(k + 1)) == selected_projects(tier, selected.take(k))
            .push(tier[selected[k] as int]),
{
    assert(selected_projects(tier, selected.take(k + 1)) =~= selected_projects(
        tier,
        selected.take(k),
    ).push(tier[selected[k] as int]));
}

/// The projects of `tier` that are not among `moved`, in order.
pub open spec fn kept_projects(tier: Seq<Seq<char>>, moved: Seq<Seq<char>>) -> Seq<Seq<char>> {
    tier.filter(|p: Seq<char>| !moved.contains(p))
}

/// All the projects of the layers, counted with repetition.
pub open spec fn layer_bag(ls: Seq<(Seq<char>, Seq<Seq<char>>)>) -> Multiset<Seq<char>>
    decreases ls.len(),
{
    if ls.len() == 0 {
        Multiset::empty()
    } else {
        layer_bag(ls.drop_last()).add(ls.last().1.to_multiset())
    }
}

/// The value of the wizard's state: its confirmed layers and its pending projects.
pub open spec fn wizard_view(w: LayerWizard) -> (Seq<(Seq<char>, Seq<Seq<char>>)>, Seq<Seq<char>>) {
    (layer_views(w.confirmed@), names(w.pending@))
}

/// All the projects of a wizard state: those of its layers and the pending ones, counted
/// with repetition.
pub open spec fn view_bag(w: (Seq<(Seq<char>, Seq<Seq<char>>)>, Seq<Seq<char>>)) -> Multiset<
    Seq<char>,
> {
    layer_bag(w.0).add(w.1.to_multiset())
}

/// All the projects the wizard has placed: those of the confirmed layers and the pending
/// ones, counted with repetition.
pub open spec fn wizard_bag(w: LayerWizard) -> Multiset<Seq<char>> {
    view_bag(wizard_view(w))
}

/// The state after confirming `tier` as layer `name`, with the projects at the `selected`
/// positions moved: to the pending ones before any layer exists, else each to the layer at
/// the same position of `dest`.
pub open spec fn confirm_step(
    w: (Seq<(Seq<char>, Seq<Seq<char>>)>, Seq<Seq<char>>),
    tier: Seq<Seq<char>>,
    name: Seq<char>,
    selected: Seq<usize>,
    dest: Seq<usize>,
) -> (Seq<(Seq<char>, Seq<Seq<char>>)>, Seq<Seq<char>>) {
    let moved = selected_projects(tier, selected);
    let kept = if moved.len() > 0 {
        kept_projects(tier, moved)
    } else {
        tier
    };
    let below = if moved.len() > 0 && w.0.len() > 0 {
        with_projects(w.0, moved, dest, moved.len())
    } else {
        w.0
    };
    (
        below.push((name, kept)),
        if moved.len() > 0 && w.0.len() == 0 {
            w.1 + moved
        } else {
            w.1
        },
    )
}

/// The state after assigning isolated project `p` to the layer at `choice`, or ignoring it
/// for a choice past the layers.
pub open spec fn isolated_step(
    w: (Seq<(Seq<char>, Seq<Seq<char>>)>, Seq<Seq<char>>),
    p: Seq<char>,
    choice: usize,
) -> (Seq<(Seq<char>, Seq<Seq<char>>)>, Seq<Seq<char>>) {
    if choice < w.0.len() {
        (with_project(w.0, choice as int, p), w.1)
    } else {
        w
    }
}

/// The state after assigning the pending projects to the layers `dest` names.
pub open spec fn pending_step(
    w: (Seq<(Seq<char>, Seq<Seq<char>>)>, Seq<Seq<char>>),
    dest: Seq<usize>,
) -> (Seq<(Seq<char>, Seq<Seq<char>>)>, Seq<Seq<char>>) {
    (with_projects(w.0, w.1, dest, dest.len()), seq![])
}

proof fn lemma_layer_bag_push(ls: Seq<(Seq<char>, Seq<Seq<char>>)>, l: (Seq<char>, Seq<Seq<char>>))
    ensures
        layer_bag(ls.push(l)) == layer_bag(ls).add(l.1.to_multiset()),
{
    assert(ls.push(l).drop_last() =~= ls);
}

proof fn lemma_layer_bag_with_project(ls: Seq<(Seq<char>, Seq<Seq<char>>)>, i: int, p: Seq<char>)
    requires
        0 <= i < ls.len(),
    ensures
        layer_bag(with_project(ls, i, p)) == layer_bag(ls).insert(p),
    decreases ls.len(),
{
    broadcast use vstd::seq_lib::group_to_multiset_ensures;

    let u = with_project(ls, i, p);
    if i == ls.len() - 1 {
        assert(u.drop_last() =~= ls.drop_last());
        assert(u.last().1.to_multiset() =~= ls.last().1.to_multiset().insert(p));
        assert(layer_bag(u) =~= layer_bag(ls).insert(p));
    } else {
        lemma_layer_bag_with_project(ls.drop_last(), i, p);
        assert(u.drop_last() =~= with_project(ls.drop_last(), i, p));
        assert(layer_bag(u) =~= layer_bag(ls).insert(p));
    }
}

proof fn lemma_with_projects_len(
    ls: Seq<(Seq<char>, Seq<Seq<char>>)>,
    ps: Seq<Seq<char>>,
    dest: Seq<usize>,
    n: nat,
)
    requires
        n <= dest.len(),
        forall|k: int| 0 <= k < n ==> (#[trigger] dest[k]) < ls.len(),
    ensures
        with_projects(ls, ps, dest, n).len() == ls.len(),
    decreases n,
{
    if n > 0 {
        lemma_with_projects_len(ls, ps, dest, (n - 1) as nat);
    }
}

proof fn lemma_layer_bag_with_projects(
    ls: Seq<(Seq<char>, Seq<Seq<char>>)>,
    ps: Seq<Seq<char>>,
    dest: Seq<usize>,
    n: nat,
)
    requires
        n <= ps.len(),
        n <= dest.len(),
        forall|k: int| 0 <= k < n ==> (#[trigger] dest[k]) < ls.len(),
    ensures
        layer_bag(with_projects(ls, ps, dest, n)) == layer_bag(ls).add(ps.take(n as int).to_multiset()),
    decreases n,
{
    broadcast use vstd::seq_lib::group_to_multiset_ensures;

    if n == 0 {
        assert(ps.take(0).to_multiset() =~= Multiset::empty());
        assert(layer_bag(ls).add(Multiset::empty()) =~= layer_bag(ls));
    } else {
        let m = (n - 1) as nat;
        lemma_layer_bag_with_projects(ls, ps, dest, m);
        lemma_with_projects_len(ls, ps, dest, m);
        lemma_layer_bag_with_project(with_projects(ls, ps, dest, m), dest[m as int] as int, ps[m as int]);
        assert(ps.take(n as int) =~= ps.take(m as int).push(ps[m as int]));
        assert(layer_bag(with_projects(ls, ps, dest, n)) =~= layer_bag(ls).add(
            ps.take(n as int).to_multiset(),
        ));
    }
}

/// How often `x` occurs in `s` filtered by `pred`: as often as in `s` when `pred(x)`, else
/// never.
proof fn lemma_filter_count(s: Seq<Seq<char>>, pred: spec_fn(Seq<char>) -> bool, x: Seq<char>)
    ensures
        s.filter(pred).to_multiset().count(x) == if pred(x) {
            s.to_multiset().count(x)
        } else {
            0
        },
    decreases s.len(),
{
    broadcast use vstd::seq_lib::group_to_multiset_ensures;

    if s.len() > 0 {
        let t = s.drop_last();
        lemma_filter_count(t, pred, x);
        assert(s =~= t.push(s.last()));
        t.lemma_filter_push(s.last(), pred);
    } else {
        assert(s.filter(pred) =~= Seq::<Seq<char>>::empty());
    }
}

/// Of distinct projects, moving a selection of distinct positions and keeping the rest
/// leaves every project in exactly one of the two parts.
proof fn lemma_kept_and_moved(tier: Seq<Seq<char>>, selected: Seq<usize>)
    requires
        tier.no_duplicates(),
        selected.no_duplicates(),
        forall|k: int| 0 <= k < selected.len() ==> (#[trigger] selected[k]) < tier.len(),
    ensures
        kept_projects(tier, selected_projects(tier, selected)).to_multiset().add(
            selected_projects(tier, selected).to_multiset(),
        ) == tier.to_multiset(),
{
    broadcast use vstd::seq_lib::group_to_multiset_ensures;

    let moved = selected_projects(tier, selected);
    let pred = |p: Seq<char>| !moved.contains(p);
    let kept = kept_projects(tier, moved);
    assert(moved.no_duplicates()) by {
        assert forall|a: int, b: int| 0 <= a < moved.len() && 0 <= b < moved.len() && a != b
            implies moved[a] != moved[b] by {
            assert(selected[a] != selected[b]);
        }
    }
    tier.lemma_multiset_has_no_duplicates();
    moved.lemma_multiset_has_no_duplicates();
    assert forall|x: Seq<char>| #[trigger] kept.to_multiset().add(moved.to_multiset()).count(x)
        == tier.to_multiset().count(x) by {
        lemma_filter_count(tier, pred, x);
        if moved.contains(x) {
            let k = choose|k: int| 0 <= k < moved.len() && moved[k] == x;
            assert(tier[selected[k] as int] == x);
            assert(tier.contains(x));
        }
    }
    assert(kept.to_multiset().add(moved.to_multiset()) =~= tier.to_multiset());
}

/// `with_projects` keeps the layers, their number and their names, and keeps every project
/// a layer had.
proof fn lemma_with_projects_keeps(
    ls: Seq<(Seq<char>, Seq<Seq<char>>)>,
    ps: Seq<Seq<char>>,
    dest: Seq<usize>,
    n: nat,
)
    requires
        n <= dest.len(),
        forall|k: int| 0 <= k < n ==> (#[trigger] dest[k]) < ls.len(),
    ensures
        with_projects(ls, ps, dest, n).len() == ls.len(),
        forall|i: int| 0 <= i < ls.len() ==> #[trigger] with_projects(ls, ps, dest, n)[i].0 == ls[i].0,
        forall|i: int, x: Seq<char>|
            0 <= i < ls.len() && ls[i].1.contains(x) ==> #[trigger] with_projects(
                ls,
                ps,
                dest,
                n,
            )[i].1.contains(x),
    decreases n,
{
    if n > 0 {
        let m = (n - 1) as nat;
        lemma_with_projects_keeps(ls, ps, dest, m);
        let prev = with_projects(ls, ps, dest, m);
        let cur = with_projects(ls, ps, dest, n);
        assert forall|i: int, x: Seq<char>|
            0 <= i < ls.len() && ls[i].1.contains(x) implies #[trigger] cur[i].1.contains(x) by {
            assert(prev[i].1.contains(x));
            let a = choose|a: int| 0 <= a < prev[i].1.len() && prev[i].1[a] == x;
            assert(cur[i].1[a] == x);
        }
    }
}

/// Confirming a tier of distinct projects, with distinct positions selected, places each of
/// them once: in the new layer, in a layer below, or among the pending ones. The layers
/// below keep their names, and the new one is named `name`.
proof fn lemma_confirm_step(
    w: (Seq<(Seq<char>, Seq<Seq<char>>)>, Seq<Seq<char>>),
    tier: Seq<Seq<char>>,
    name: Seq<char>,
    selected: Seq<usize>,
    dest: Seq<usize>,
)
    requires
        tier.no_duplicates(),
        selected.no_duplicates(),
        forall|k: int| 0 <= k < selected.len() ==> (#[trigger] selected[k]) < tier.len(),
        w.0.len() > 0 && selected.len() > 0 ==> dest.len() == selected.len() && forall|k: int|
            0 <= k < dest.len() ==> (#[trigger] dest[k]) < w.0.len(),
    ensures
        view_bag(confirm_step(w, tier, name, selected, dest)) == view_bag(w).add(tier.to_multiset()),
        confirm_step(w, tier, name, selected, dest).0.len() == w.0.len() + 1,
        forall|i: int|
            0 <= i < w.0.len() ==> #[trigger] confirm_step(w, tier, name, selected, dest).0[i].0
                == w.0[i].0,
        confirm_step(w, tier, name, selected, dest).0[w.0.len() as int].0 == name,
{
    let moved = selected_projects(tier, selected);
    let r = confirm_step(w, tier, name, selected, dest);
    let tb = tier.to_multiset();
    if moved.len() > 0 {
        lemma_kept_and_moved(tier, selected);
        let kb = kept_projects(tier, moved).to_multiset();
        assert(kb.add(moved.to_multiset()) == tb);
        if w.0.len() > 0 {
            lemma_layer_bag_with_projects(w.0, moved, dest, moved.len());
            lemma_with_projects_keeps(w.0, moved, dest, moved.len());
            assert(moved.take(moved.len() as int) =~= moved);
            lemma_layer_bag_push(with_projects(w.0, moved, dest, moved.len()), (name, kept_projects(tier, moved)));
            assert(view_bag(r) =~= view_bag(w).add(tb));
        } else {
            lemma_layer_bag_push(w.0, (name, kept_projects(tier, moved)));
            vstd::seq_lib::lemma_multiset_commutative(w.1, moved);
            assert(view_bag(r) =~= view_bag(w).add(tb));
        }
    } else {
        lemma_layer_bag_push(w.0, (name, tier));
        assert(view_bag(r) =~= view_bag(w).add(tb));
    }
}

/// Assigning an isolated project places it once, in the chosen layer, or nowhere for the
/// `ignore` choice; the layers keep their names and their projects.
proof fn lemma_isolated_step(
    w: (Seq<(Seq<char>, Seq<Seq<char>>)>, Seq<Seq<char>>),
    p: Seq<char>,
    choice: usize,
)
    ensures
        view_bag(isolated_step(w, p, choice)) == if choice < w.0.len() {
            view_bag(w).insert(p)
        } else {
            view_bag(w)
        },
        isolated_step(w, p, choice).0.len() == w.0.len(),
        isolated_step(w, p, choice).1 == w.1,
        forall|i: int| 0 <= i < w.0.len() ==> #[trigger] isolated_step(w, p, choice).0[i].0 == w.0[i].0,
        forall|i: int, x: Seq<char>|
            0 <= i < w.0.len() && w.0[i].1.contains(x) ==> #[trigger] isolated_step(
                w,
                p,
                choice,
            ).0[i].1.contains(x),
        choice < w.0.len() ==> isolated_step(w, p, choice).0[choice as int].1.contains(p),
{
    if choice < w.0.len() {
        lemma_layer_bag_with_project(w.0, choice as int, p);
        let r = isolated_step(w, p, choice);
        assert(view_bag(r) =~= view_bag(w).insert(p));
        assert(r.0[choice as int].1[w.0[choice as int].1.len() as int] == p);
        assert forall|i: int, x: Seq<char>|
            0 <= i < w.0.len() && w.0[i].1.contains(x) implies #[trigger] r.0[i].1.contains(x) by {
            let a = choose|a: int| 0 <= a < w.0[i].1.len() && w.0[i].1[a] == x;
            assert(r.0[i].1[a] == x);
        }
    }
}

/// Assigning the pending projects moves each of them into a layer and leaves none pending;
/// the layers keep their names and their projects.
proof fn lemma_pending_step(w: (Seq<(Seq<char>, Seq<Seq<char>>)>, Seq<Seq<char>>), dest: Seq<usize>)
    requires
        dest.len() == w.1.len(),
        forall|k: int| 0 <= k < dest.len() ==> (#[trigger] dest[k]) < w.0.len(),
    ensures
        view_bag(pending_step(w, dest)) == view_bag(w),
        pending_step(w, dest).1.len() == 0,
        pending_step(w, dest).0.len() == w.0.len(),
        forall|i: int| 0 <= i < w.0.len() ==> #[trigger] pending_step(w, dest).0[i].0 == w.0[i].0,
        forall|i: int, x: Seq<char>|
            0 <= i < w.0.len() && w.0[i].1.contains(x) ==> #[trigger] pending_step(
                w,
                dest,
            ).0[i].1.contains(x),
{
    broadcast use vstd::seq_lib::group_to_multiset_ensures;

    lemma_layer_bag_with_projects(w.0, w.1, dest, dest.len());
    lemma_with_projects_keeps(w.0, w.1, dest, dest.len());
    assert(w.1.take(w.1.len() as int) =~= w.1);
    assert(Seq::<Seq<char>>::empty().to_multiset() =~= Multiset::empty());
    assert(view_bag(pending_step(w, dest)) =~= view_bag(w));
}

/// The projects of the first `n` tiers, tier after tier.
pub open spec fn tier_projects(tiers: Seq<Seq<Seq<char>>>, n: nat) -> Seq<Seq<char>>
    decreases n,
{
    if n == 0 {
        seq![]
    } else {
        tier_projects(tiers, (n - 1) as nat) + tiers[n - 1]
    }
}

/// The first `n` isolated projects whose choice is one of `k` layers (not `ignore`), in order.
pub open spec fn chosen_isolated(isolated: Seq<Seq<char>>, choices: Seq<usize>, k: nat, n: nat) -> Seq<
    Seq<char>,
>
    decreases n,
{
    if n == 0 {
        seq![]
    } else {
        chosen_isolated(isolated, choices, k, (n - 1) as nat) + if choices[n - 1] < k {
            seq![isolated[n - 1]]
        } else {
            seq![]
        }
    }
}

/// The state after confirming the first `n` tiers, from no layers, with the given names,
/// selections of projects to move and their destinations.
pub open spec fn tiers_run(
    tiers: Seq<Seq<Seq<char>>>,
    layer_names: Seq<Seq<char>>,
    selections: Seq<Seq<usize>>,
    dests: Seq<Seq<usize>>,
    n: nat,
) -> (Seq<(Seq<char>, Seq<Seq<char>>)>, Seq<Seq<char>>)
    decreases n,
{
    if n == 0 {
        (seq![], seq![])
    } else {
        confirm_step(
            tiers_run(tiers, layer_names, selections, dests, (n - 1) as nat),
            tiers[n - 1],
            layer_names[n - 1],
            selections[n - 1],
            dests[n - 1],
        )
    }
}

/// The state after assigning the first `n` isolated projects by their choices.
pub open spec fn isolated_run(
    w: (Seq<(Seq<char>, Seq<Seq<char>>)>, Seq<Seq<char>>),
    isolated: Seq<Seq<char>>,
    choices: Seq<usize>,
    n: nat,
) -> (Seq<(Seq<char>, Seq<Seq<char>>)>, Seq<Seq<char>>)
    decreases n,
{
    if n == 0 {
        w
    } else {
        isolated_step(isolated_run(w, isolated, choices, (n - 1) as nat), isolated[n - 1], choices[n - 1])
    }
}

/// The layers a whole run of the wizard gives: every tier confirmed in order, then every
/// isolated project assigned or ignored, then the pending projects assigned to `pending_dest`.
pub open spec fn wizard_run(
    tiers: Seq<Seq<Seq<char>>>,
    layer_names: Seq<Seq<char>>,
    selections: Seq<Seq<usize>>,
    dests: Seq<Seq<usize>>,
    isolated: Seq<Seq<char>>,
    choices: Seq<usize>,
    pending_dest: Seq<usize>,
) -> Seq<(Seq<char>, Seq<Seq<char>>)> {
    pending_step(
        isolated_run(
            tiers_run(tiers, layer_names, selections, dests, tiers.len()),
            isolated,
            choices,
            isolated.len(),
        ),
        pending_dest,
    ).0
}

/// The answers for the tiers are ones the prompts can give: a name, a set of distinct
/// positions of the tier to move, and, once a layer exists, a layer below for each.
pub open spec fn tier_answers_fit(
    tiers: Seq<Seq<Seq<char>>>,
    layer_names: Seq<Seq<char>>,
    selections: Seq<Seq<usize>>,
    dests: Seq<Seq<usize>>,
) -> bool {
    &&& layer_names.len() == tiers.len()
    &&& selections.len() == tiers.len()
    &&& dests.len() == tiers.len()
    &&& forall|i: int| 0 <= i < tiers.len() ==> (#[trigger] selections[i]).no_duplicates()
    &&& forall|i: int, k: int|
        0 <= i < tiers.len() && 0 <= k < selections[i].len() ==> #[trigger] selections[i][k]
            < tiers[i].len()
    &&& forall|i: int|
        0 < i < tiers.len() && (#[trigger] selections[i]).len() > 0 ==> dests[i].len()
            == selections[i].len() && forall|k: int| 0 <= k < dests[i].len() ==> #[trigger] dests[i][k] < i
}

proof fn lemma_no_dups_split(a: Seq<Seq<char>>, b: Seq<Seq<char>>)
    requires
        (a + b).no_duplicates(),
    ensures
        a.no_duplicates(),
        b.no_duplicates(),
{
    assert forall|i: int, j: int| 0 <= i < a.len() && 0 <= j < a.len() && i != j implies a[i] != a[j] by {
        assert((a + b)[i] == a[i] && (a + b)[j] == a[j]);
    }
    assert forall|i: int, j: int| 0 <= i < b.len() && 0 <= j < b.len() && i != j implies b[i] != b[j] by {
        assert((a + b)[a.len() + i] == b[i] && (a + b)[a.len() + j] == b[j]);
    }
}

proof fn lemma_tier_projects_prefix(tiers: Seq<Seq<Seq<char>>>, n: nat, m: nat)
    requires
        n <= m,
        tier_projects(tiers, m).no_duplicates(),
    ensures
        tier_projects(tiers, n).no_duplicates(),
    decreases m,
{
    if n < m {
        lemma_no_dups_split(tier_projects(tiers, (m - 1) as nat), tiers[m - 1]);
        lemma_tier_projects_prefix(tiers, n, (m - 1) as nat);
    }
}

proof fn lemma_tiers_run(
    tiers: Seq<Seq<Seq<char>>>,
    layer_names: Seq<Seq<char>>,
    selections: Seq<Seq<usize>>,
    dests: Seq<Seq<usize>>,
    n: nat,
)
    requires
        tier_answers_fit(tiers, layer_names, selections, dests),
        n <= tiers.len(),
        tier_projects(tiers, n).no_duplicates(),
    ensures
        view_bag(tiers_run(tiers, layer_names, selections, dests, n)) == tier_projects(
            tiers,
            n,
        ).to_multiset(),
        tiers_run(tiers, layer_names, selections, dests, n).0.len() == n,
        forall|i: int|
            0 <= i < n ==> #[trigger] tiers_run(tiers, layer_names, selections, dests, n).0[i].0
                == layer_names[i],
    decreases n,
{
    broadcast use vstd::seq_lib::group_to_multiset_ensures;

    if n == 0 {
        let w = tiers_run(tiers, layer_names, selections, dests, n);
        assert(w.1.to_multiset() =~= Multiset::empty());
        assert(view_bag(w) =~= tier_projects(tiers, n).to_multiset());
    } else {
        let m = (n - 1) as nat;
        lemma_no_dups_split(tier_projects(tiers, m), tiers[m as int]);
        lemma_tiers_run(tiers, layer_names, selections, dests, m);
        let w = tiers_run(tiers, layer_names, selections, dests, m);
        assert(selections[m as int].no_duplicates());
        lemma_confirm_step(w, tiers[m as int], layer_names[m as int], selections[m as int], dests[m as int]);
        vstd::seq_lib::lemma_multiset_commutative(tier_projects(tiers, m), tiers[m as int]);
    }
}

proof fn lemma_chosen_isolated(isolated: Seq<Seq<char>>, choices: Seq<usize>, k: nat, n: nat)
    requires
        n <= isolated.len(),
        choices.len() == isolated.len(),
    ensures
        forall|x: Seq<char>|
            #[trigger] chosen_isolated(isolated, choices, k, n).contains(x) ==> isolated.contains(x),
        isolated.no_duplicates() ==> forall|m: int|
            0 <= m < isolated.len() ==> #[trigger] chosen_isolated(
                isolated,
                choices,
                k,
                n,
            ).to_multiset().count(isolated[m]) == if m < n && choices[m] < k {
                1nat
            } else {
                0nat
            },
    decreases n,
{
    broadcast use vstd::seq_lib::group_to_multiset_ensures;

    if n == 0 {
        assert(chosen_isolated(isolated, choices, k, n).to_multiset() =~= Multiset::empty());
    } else {
        let q = (n - 1) as nat;
        lemma_chosen_isolated(isolated, choices, k, q);
        let prev = chosen_isolated(isolated, choices, k, q);
        let cur = chosen_isolated(isolated, choices, k, n);
        assert forall|x: Seq<char>| #[trigger] cur.contains(x) implies isolated.contains(x) by {
            let a = choose|a: int| 0 <= a < cur.len() && cur[a] == x;
            if a < prev.len() {
                assert(prev[a] == x);
                assert(prev.contains(x));
            } else {
                assert(isolated[q as int] == x);
                assert(isolated.contains(x));
            }
        }
        if isolated.no_duplicates() {
            assert forall|m: int| 0 <= m < isolated.len() implies #[trigger] cur.to_multiset().count(
                isolated[m],
            ) == if m < n && choices[m] < k {
                1nat
            } else {
                0nat
            } by {
                if choices[q as int] < k {
                    assert(cur == prev.push(isolated[q as int]));
                    if m != q {
                        assert(isolated[m] != isolated[q as int]);
                    }
                } else {
                    assert(cur =~= prev);
                }
            }
        }
    }
}

proof fn lemma_isolated_run(
    w: (Seq<(Seq<char>, Seq<Seq<char>>)>, Seq<Seq<char>>),
    isolated: Seq<Seq<char>>,
    choices: Seq<usize>,
    n: nat,
)
    requires
        n <= isolated.len(),
        n <= choices.len(),
    ensures
        view_bag(isolated_run(w, isolated, choices, n)) == view_bag(w).add(
            chosen_isolated(isolated, choices, w.0.len(), n).to_multiset(),
        ),
        isolated_run(w, isolated, choices, n).0.len() == w.0.len(),
        isolated_run(w, isolated, choices, n).1 == w.1,
        forall|i: int|
            0 <= i < w.0.len() ==> #[trigger] isolated_run(w, isolated, choices, n).0[i].0 == w.0[i].0,
        forall|m: int|
            0 <= m < n && #[trigger] choices[m] < w.0.len() ==> isolated_run(
                w,
                isolated,
                choices,
                n,
            ).0[choices[m] as int].1.contains(isolated[m]),
    decreases n,
{
    broadcast use vstd::seq_lib::group_to_multiset_ensures;

    let k = w.0.len();
    if n == 0 {
        assert(chosen_isolated(isolated, choices, k, n).to_multiset() =~= Multiset::empty());
        assert(view_bag(w).add(Multiset::empty()) =~= view_bag(w));
    } else {
        let q = (n - 1) as nat;
        lemma_isolated_run(w, isolated, choices, q);
        let prev = isolated_run(w, isolated, choices, q);
        lemma_isolated_step(prev, isolated[q as int], choices[q as int]);
        let cur = isolated_run(w, isolated, choices, n);
        let cp = chosen_isolated(isolated, choices, k, q);
        if choices[q as int] < k {
            assert(chosen_isolated(isolated, choices, k, n) == cp.push(isolated[q as int]));
            assert(view_bag(cur) =~= view_bag(w).add(
                chosen_isolated(isolated, choices, k, n).to_multiset(),
            ));
        } else {
            assert(chosen_isolated(isolated, choices, k, n) =~= cp);
        }
        assert forall|m: int| 0 <= m < n && #[trigger] choices[m] < k implies cur.0[choices[m] as int].1.contains(
            isolated[m],
        ) by {
            if m < q {
                assert(prev.0[choices[m] as int].1.contains(isolated[m]));
            }
        }
    }
}

/// A whole run of the wizard over tiers of distinct projects, with isolated projects that
/// are in no tier: there is one layer per tier, with that tier's name; every tier project is
/// in exactly one layer, once; an isolated project is in the layer it was assigned to, and
/// each layer project is a tier project or an isolated one. Counted with repetition, the
/// layers hold the tier projects and the isolated projects not ignored; so an isolated
/// project listed once is in the layers once when assigned, and not at all when ignored.
pub proof fn law_wizard_run(
    tiers: Seq<Seq<Seq<char>>>,
    layer_names: Seq<Seq<char>>,
    selections: Seq<Seq<usize>>,
    dests: Seq<Seq<usize>>,
    isolated: Seq<Seq<char>>,
    choices: Seq<usize>,
    pending_dest: Seq<usize>,
)
    requires
        tier_answers_fit(tiers, layer_names, selections, dests),
        tier_projects(tiers, tiers.len()).no_duplicates(),
        forall|m: int| 0 <= m < isolated.len() ==> !tier_projects(tiers, tiers.len()).contains(
            #[trigger] isolated[m],
        ),
        choices.len() == isolated.len(),
        pending_dest.len() == tiers_run(tiers, layer_names, selections, dests, tiers.len()).1.len(),
        forall|k: int| 0 <= k < pending_dest.len() ==> (#[trigger] pending_dest[k]) < tiers.len(),
    ensures
        ({
            let ls = wizard_run(tiers, layer_names, selections, dests, isolated, choices, pending_dest);
            let all = tier_projects(tiers, tiers.len());
            let k = tiers.len();
            &&& ls.len() == k
            &&& forall|i: int| 0 <= i < k ==> #[trigger] ls[i].0 == layer_names[i]
            &&& layer_bag(ls) == all.to_multiset().add(
                chosen_isolated(isolated, choices, k, isolated.len()).to_multiset(),
            )
            &&& forall|x: Seq<char>| all.contains(x) ==> #[trigger] layer_bag(ls).count(x) == 1
            &&& forall|x: Seq<char>|
                #[trigger] layer_bag(ls).count(x) > 0 ==> all.contains(x) || isolated.contains(x)
            &&& forall|m: int|
                0 <= m < isolated.len() && #[trigger] choices[m] < k ==> ls[choices[m] as int].1.contains(
                    isolated[m],
                )
            &&& isolated.no_duplicates() ==> forall|m: int|
                0 <= m < isolated.len() ==> #[trigger] layer_bag(ls).count(isolated[m]) == if choices[m]
                    < k {
                    1nat
                } else {
                    0nat
                }
        }),
{
    broadcast use vstd::seq_lib::group_to_multiset_ensures;

    let k = tiers.len();
    let all = tier_projects(tiers, k);
    lemma_tiers_run(tiers, layer_names, selections, dests, k);
    let w1 = tiers_run(tiers, layer_names, selections, dests, k);
    lemma_isolated_run(w1, isolated, choices, isolated.len());
    let w2 = isolated_run(w1, isolated, choices, isolated.len());
    lemma_pending_step(w2, pending_dest);
    let w3 = pending_step(w2, pending_dest);
    let ls = w3.0;
    let ch = chosen_isolated(isolated, choices, k, isolated.len());
    lemma_chosen_isolated(isolated, choices, k, isolated.len());
    assert(w3.1.to_multiset() =~= Multiset::empty());
    assert(layer_bag(ls) =~= view_bag(w3));
    assert(layer_bag(ls) =~= all.to_multiset().add(ch.to_multiset()));
    all.lemma_multiset_has_no_duplicates();
    assert forall|x: Seq<char>| all.contains(x) implies #[trigger] layer_bag(ls).count(x) == 1 by {
        if ch.contains(x) {
            let m = choose|m: int| 0 <= m < isolated.len() && isolated[m] == x;
            assert(!all.contains(isolated[m]));
        }
    }
    assert forall|x: Seq<char>| #[trigger] layer_bag(ls).count(x) > 0 implies all.contains(x)
        || isolated.contains(x) by {
        if !all.contains(x) {
            assert(ch.to_multiset().count(x) > 0);
        }
    }
    assert forall|m: int| 0 <= m < isolated.len() && #[trigger] choices[m] < k implies ls[choices[m] as int].1.contains(
        isolated[m],
    ) by {
        assert(w2.0[choices[m] as int].1.contains(isolated[m]));
    }
    if isolated.no_duplicates() {
        assert forall|m: int| 0 <= m < isolated.len() implies #[trigger] layer_bag(ls).count(
            isolated[m],
        ) == if choices[m] < k {
            1nat
        } else {
            0nat
        } by {
            assert(!all.contains(isolated[m]));
            assert(ch.to_multiset().count(isolated[m]) == if choices[m] < k {
                1nat
            } else {
                0nat
            });
        }
    }
}

impl LayerWizard {
    /// No layers and no pending projects.
    pub fn new() -> (r: LayerWizard)
        ensures
            r.confirmed@.len() == 0,
            r.pending@.len() == 0,
            wizard_view(r) == (Seq::<(Seq<char>, Seq<Seq<char>>)>::empty(), Seq::<Seq<char>>::empty()),
    {
        LayerWizard { confirmed: Vec::new(), pending: Vec::new() }
    }

    /// The question about moving projects out of the current tier: before any layer exists,
    /// moved projects wait until all tiers are named.
    pub fn move_question(&self) -> (r: &'static str)
        ensures
            self.confirmed@.len() == 0 ==> r@
                == "Move any projects out of this tier? (will be assigned after all tiers are processed)"@,
            self.confirmed@.len() > 0 ==> r@ == "Move any projects to an already-confirmed layer below?"@,
    {
        if self.confirmed.len() == 0 {
            "Move any projects out of this tier? (will be assigned after all tiers are processed)"
        } else {
            "Move any projects to an already-confirmed layer below?"
        }
    }

    /// The names of the confirmed layers, in order.
    pub fn layer_names(&self) -> (r: Vec<String>)
        ensures
            names(r@) == layer_names_of(self.confirmed@),
    {
        let mut out: Vec<String> = Vec::new();
        let mut i: usize = 0;
        while i < self.confirmed.len()
            invariant
                i <= self.confirmed@.len(),
                names(out@) == layer_names_of(self.confirmed@.take(i as int)),
            decreases self.confirmed@.len() - i,
        {
            let ghost prev = out@;
            out.push(self.confirmed[i].name.clone());
            proof {
                lemma_names_push(prev, self.confirmed@[i as int].name);
                lemma_layer_names_take_succ(self.confirmed@, i as int);
            }
            i = i + 1;
        }
        proof {
            assert(self.confirmed@.take(self.confirmed@.len() as int) =~= self.confirmed@);
        }
        out
    }

    /// Adds `p` to confirmed layer `i`.
    fn add_to_layer(&mut self, i: usize, p: String)
        requires
            i < old(self).confirmed@.len(),
        ensures
            layer_views(final(self).confirmed@) == with_project(
                layer_views(old(self).confirmed@),
                i as int,
                p@,
            ),
            final(self).pending == old(self).pending,
            final(self).confirmed@.len() == old(self).confirmed@.len(),
    {
        let ghost before = self.confirmed@;
        let mut layer = self.confirmed.remove(i);
        let ghost l0 = layer;
        let ghost pv = p;
        layer.projects.push(p);
        let ghost l1 = layer;
        self.confirmed.insert(i, layer);
        proof {
            assert(self.confirmed@ =~= before.update(i as int, l1));
            lemma_names_push(l0.projects@, pv);
            assert(layer_view(l1) == (layer_views(before)[i as int].0, layer_views(
                before,
            )[i as int].1.push(pv@)));
            assert(layer_views(self.confirmed@) =~= with_project(layer_views(before), i as int, pv@));
        }
    }

    /// Confirms a tier as a layer named `name`. When the user moved projects (the
    /// `selected` positions of `tier`), they leave the tier: before any layer exists they
    /// wait as pending projects; otherwise each goes to the confirmed layer at the same
    /// position of `dest`. The new layer is added on top.
    pub fn confirm_tier(&mut self, tier: &[String], name: String, selected: &[usize], dest: &[usize])
        requires
            forall|k: int| 0 <= k < selected@.len() ==> (#[trigger] selected@[k]) < tier@.len(),
            old(self).confirmed@.len() > 0 && selected@.len() > 0 ==> dest@.len()
                == selected@.len() && forall|k: int|
                0 <= k < dest@.len() ==> (#[trigger] dest@[k]) < old(self).confirmed@.len(),
        ensures
            ({
                let moved = selected_projects(names(tier@), selected@);
                let kept = if moved.len() > 0 {
                    kept_projects(names(tier@), moved)
                } else {
                    names(tier@)
                };
                let below = if moved.len() > 0 && old(self).confirmed@.len() > 0 {
                    with_projects(layer_views(old(self).confirmed@), moved, dest@, moved.len())
                } else {
                    layer_views(old(self).confirmed@)
                };
                &&& layer_views(final(self).confirmed@) == below.push((name@, kept))
                &&& names(final(self).pending@) == if moved.len() > 0 && old(self).confirmed@.len()
                    == 0 {
                    names(old(self).pending@) + moved
                } else {
                    names(old(self).pending@)
                }
            }),
            wizard_view(*final(self)) == confirm_step(
                wizard_view(*old(self)),
                names(tier@),
                name@,
                selected@,
                dest@,
            ),
            names(tier@).no_duplicates() && selected@.no_duplicates() ==> wizard_bag(*final(self))
                == wizard_bag(*old(self)).add(names(tier@).to_multiset()),
    {
        let ghost tier_names = names(tier@);
        let mut moved: Vec<String> = Vec::new();
        let mut k: usize = 0;
        while k < selected.len()
            invariant
                k <= selected@.len(),
                tier_names == names(tier@),
                forall|q: int| 0 <= q < selected@.len() ==> (#[trigger] selected@[q]) < tier@.len(),
                names(moved@) == selected_projects(tier_names, selected@.take(k as int)),
            decreases selected@.len() - k,
        {
            let ghost prev = moved@;
            moved.push(tier[selected[k]].clone());
            proof {
                lemma_names_push(prev, tier@[selected@[k as int] as int]);
                lemma_selected_take_succ(tier_names, selected@, k as int);
            }
            k = k + 1;
        }
        proof {
            assert(selected@.take(selected@.len() as int) =~= selected@);
        }
        let ghost mv = names(moved@);
        let mut kept: Vec<String> = Vec::new();
        if moved.len() > 0 {
            if self.confirmed.len() == 0 {
                let ghost p0 = self.pending@;
                let mut q: usize = 0;
                while q < moved.len()
                    invariant
                        q <= moved@.len(),
                        mv == names(moved@),
                        self.confirmed@.len() == 0,
                        names(self.pending@) == names(p0) + mv.take(q as int),
                    decreases moved@.len() - q,
                {
                    let ghost prev = self.pending@;
                    self.pending.push(moved[q].clone());
                    proof {
                        lemma_names_push(prev, moved@[q as int]);
                        assert(names(p0) + mv.take(q + 1) =~= (names(p0) + mv.take(q as int)).push(
                            mv[q as int],
                        ));
                    }
                    q = q + 1;
                }
                proof {
                    assert(mv.take(mv.len() as int) =~= mv);
                }
            } else {
                let ghost base = layer_views(self.confirmed@);
                let ghost n0 = self.confirmed@.len();
                let mut q: usize = 0;
                while q < moved.len()
                    invariant
                        q <= moved@.len(),
                        mv == names(moved@),
                        dest@.len() == moved@.len(),
                        self.confirmed@.len() == n0,
                        forall|j: int| 0 <= j < dest@.len() ==> (#[trigger] dest@[j]) < n0,
                        layer_views(self.confirmed@) == with_projects(base, mv, dest@, q as nat),
                        self.pending == old(self).pending,
                    decreases moved@.len() - q,
                {
                    self.add_to_layer(dest[q], moved[q].clone());
                    q = q + 1;
                }
            }
            let mut j: usize = 0;
            while j < tier.len()
                invariant
                    j <= tier@.len(),
                    tier_names == names(tier@),
                    mv == names(moved@),
                    names(kept@) == kept_projects(tier_names.take(j as int), mv),
                decreases tier@.len() - j,
            {
                let mut found = false;
                let mut q: usize = 0;
                while q < moved.len()
                    invariant
                        q <= moved@.len(),
                        j < tier@.len(),
                        mv == names(moved@),
                        found == (exists|w: int| 0 <= w < q && #[trigger] mv[w] == tier@[j as int]@),
                    decreases moved@.len() - q,
                {
                    proof {
                        assert(mv[q as int] == moved@[q as int]@);
                    }
                    if moved[q] == tier[j] {
                        found = true;
                    }
                    q = q + 1;
                }
                proof {
                    assert(found == mv.contains(tier_names[j as int]));
                    assert(tier_names.take(j + 1) =~= tier_names.take(j as int).push(
                        tier_names[j as int],
                    ));
                    tier_names.take(j as int).lemma_filter_push(
                        tier_names[j as int],
                        |p: Seq<char>| !mv.contains(p),
                    );
                }
                let ghost prev = kept@;
                if !found {
                    kept.push(tier[j].clone());
                    proof {
                        lemma_names_push(prev, tier@[j as int]);
                    }
                }
                proof {
                    assert(tier_names[j as int] == tier@[j as int]@);
                    assert(names(kept@) =~= kept_projects(tier_names.take(j + 1), mv));
                }
                j = j + 1;
            }
            proof {
                assert(tier_names.take(tier@.len() as int) =~= tier_names);
            }
        } else {
            let mut j: usize = 0;
            while j < tier.len()
                invariant
                    j <= tier@.len(),
                    tier_names == names(tier@),
                    names(kept@) == tier_names.take(j as int),
                decreases tier@.len() - j,
            {
                let ghost prev = kept@;
                kept.push(tier[j].clone());
                proof {
                    lemma_names_push(prev, tier@[j as int]);
                    assert(names(kept@) =~= tier_names.take(j + 1));
                }
                j = j + 1;
            }
            proof {
                assert(tier_names.take(tier@.len() as int) =~= tier_names);
            }
        }
        let ghost below = self.confirmed@;
        let layer = LayerDef { name, projects: kept };
        let ghost lv = layer;
        self.confirmed.push(layer);
        proof {
            lemma_layer_views_push(below, lv);
            assert(wizard_view(*self) == confirm_step(
                wizard_view(*old(self)),
                tier_names,
                lv.name@,
                selected@,
                dest@,
            ));
            if tier_names.no_duplicates() && selected@.no_duplicates() {
                lemma_confirm_step(wizard_view(*old(self)), tier_names, lv.name@, selected@, dest@);
            }
        }
    }

    /// The choices for an isolated project: each confirmed layer, then `ignore`.
    pub fn isolated_choices(&self) -> (r: Vec<String>)
        ensures
            names(r@) == layer_names_of(self.confirmed@).push("ignore"@),
    {
        let mut out = self.layer_names();
        out.push(owned("ignore"));
        proof {
            assert(names(out@) =~= layer_names_of(self.confirmed@).push(
                "ignore"@,
            ));
        }
        out
    }

    /// Assigns an isolated project to the layer at `choice`, or ignores it when `choice` is
    /// past the layers (the `ignore` choice).
    pub fn assign_isolated(&mut self, project: &String, choice: usize)
        ensures
            choice < old(self).confirmed@.len() ==> layer_views(final(self).confirmed@)
                == with_project(layer_views(old(self).confirmed@), choice as int, project@),
            choice >= old(self).confirmed@.len() ==> layer_views(final(self).confirmed@)
                == layer_views(old(self).confirmed@),
            final(self).pending == old(self).pending,
            final(self).confirmed@.len() == old(self).confirmed@.len(),
            choice < old(self).confirmed@.len() ==> wizard_bag(*final(self)) == wizard_bag(
                *old(self),
            ).insert(project@),
            choice >= old(self).confirmed@.len() ==> wizard_bag(*final(self)) == wizard_bag(
                *old(self),
            ),
            wizard_view(*final(self)) == isolated_step(wizard_view(*old(self)), project@, choice),
    {
        if choice < self.confirmed.len() {
            self.add_to_layer(choice, project.clone());
            proof {
                lemma_layer_bag_with_project(
                    layer_views(old(self).confirmed@),
                    choice as int,
                    project@,
                );
                assert(wizard_bag(*self) =~= wizard_bag(*old(self)).insert(project@));
            }
        }
    }

    /// Assigns the pending projects, in order, to the layers at the same positions of `dest`;
    /// none is pending afterwards.
    pub fn assign_pending(&mut self, dest: &[usize])
        requires
            dest@.len() == old(self).pending@.len(),
            forall|k: int| 0 <= k < dest@.len() ==> (#[trigger] dest@[k]) < old(self).confirmed@.len(),
        ensures
            layer_views(final(self).confirmed@) == with_projects(
                layer_views(old(self).confirmed@),
                names(old(self).pending@),
                dest@,
                dest@.len(),
            ),
            final(self).pending@.len() == 0,
            wizard_bag(*final(self)) == wizard_bag(*old(self)),
            wizard_view(*final(self)) == pending_step(wizard_view(*old(self)), dest@),
    {
        let ghost base = layer_views(self.confirmed@);
        let ghost pend = names(self.pending@);
        let ghost n0 = self.confirmed@.len();
        let mut q: usize = 0;
        while q < dest.len()
            invariant
                q <= dest@.len(),
                dest@.len() == self.pending@.len(),
                pend == names(self.pending@),
                self.confirmed@.len() == n0,
                forall|j: int| 0 <= j < dest@.len() ==> (#[trigger] dest@[j]) < n0,
                layer_views(self.confirmed@) == with_projects(base, pend, dest@, q as nat),
            decreases dest@.len() - q,
        {
            let p = self.pending[q].clone();
            self.add_to_layer(dest[q], p);
            q = q + 1;
        }
        self.pending.clear();
        proof {
            lemma_layer_bag_with_projects(base, pend, dest@, dest@.len());
            assert(pend.take(pend.len() as int) =~= pend);
            assert(names(self.pending@).to_multiset() =~= Multiset::empty()) by {
                broadcast use vstd::seq_lib::group_to_multiset_ensures;

                assert(names(self.pending@) =~= Seq::<Seq<char>>::empty());
            }
            assert(wizard_bag(*self) =~= wizard_bag(*old(self)));
            assert(wizard_view(*self) =~= pending_step(wizard_view(*old(self)), dest@));
        }
    }

    /// Once the wizard has placed exactly the distinct projects `all` and none is pending,
    /// every one of them is in exactly one layer, once, and no other project is in any.
    pub proof fn law_each_project_in_one_layer(&self, all: Seq<Seq<char>>)
        requires
            all.no_duplicates(),
            self.pending@.len() == 0,
            wizard_bag(*self) == all.to_multiset(),
        ensures
            forall|x: Seq<char>|
                #[trigger] layer_bag(layer_views(self.confirmed@)).count(x) == if all.contains(x) {
                    1nat
                } else {
                    0nat
                },
    {
        broadcast use vstd::seq_lib::group_to_multiset_ensures;

        all.lemma_multiset_has_no_duplicates();
        assert(names(self.pending@) =~= Seq::<Seq<char>>::empty());
        assert(layer_bag(layer_views(self.confirmed@)) =~= all.to_multiset());
    }
}

/// The rules from the answers about the dependencies between layers: each edge, in order,
/// with its answer.
pub open spec fn rules_of(edges: Seq<InterLayerEdge>, answers: Seq<bool>) -> Seq<
    (Seq<char>, Seq<char>, bool),
> {
    Seq::new(edges.len(), |i: int| (edges[i].from@, edges[i].to@, answers[i]))
}

/// The values of a sequence of rules.
pub open spec fn rule_views(r: Seq<(String, String, bool)>) -> Seq<(Seq<char>, Seq<char>, bool)> {
    r.map_values(|t: (String, String, bool)| (t.0@, t.1@, t.2))
}

/// The suggested answer for an edge: allow it unless it is unusual.
pub fn default_allow(edge: &InterLayerEdge) -> (r: bool)
    ensures
        r == !edge.unusual,
{
    !edge.unusual
}

/// The rules from the answers given for `edges`, in order.
pub fn rules_from_answers(edges: &[InterLayerEdge], answers: &[bool]) -> (r: Vec<
    (String, String, bool),
>)
    requires
        answers@.len() == edges@.len(),
    ensures
        rule_views(r@) == rules_of(edges@, answers@),
{
    let mut out: Vec<(String, String, bool)> = Vec::new();
    let mut i: usize = 0;
    while i < edges.len()
        invariant
            i <= edges@.len(),
            answers@.len() == edges@.len(),
            rule_views(out@) == rules_of(edges@, answers@).take(i as int),
        decreases edges@.len() - i,
    {
        let ghost prev = out@;
        let rule = (edges[i].from.clone(), edges[i].to.clone(), answers[i]);
        out.push(rule);
        proof {
            assert(rule_views(out@) =~= rule_views(prev).push((rule.0@, rule.1@, rule.2)));
            assert(rule_views(out@) =~= rules_of(edges@, answers@).take(i + 1));
        }
        i = i + 1;
    }
    proof {
        assert(rules_of(edges@, answers@).take(edges@.len() as int) =~= rules_of(edges@, answers@));
    }
    out
}

/// The values of package policies, as (layer name, package name).
pub open spec fn policy_views(r: Seq<(String, String)>) -> Seq<(Seq<char>, Seq<char>)> {
    r.map_values(|t: (String, String)| (t.0@, t.1@))
}

/// The package policies that the picks name: for each pick (layer index, package name),
/// the name of that layer and the package.
pub open spec fn policies_of(layers: Seq<LayerDef>, picks: Seq<(usize, String)>) -> Seq<
    (Seq<char>, Seq<char>),
> {
    Seq::new(picks.len(), |k: int| (layers[picks[k].0 as int].name@, picks[k].1@))
}

/// The last answers of the wizard: the ignore patterns (the detected test projects when
/// there are some and the user takes them, none otherwise) and the package policies, one
/// per pick of a layer and a package to forbid there, in the order picked.
pub fn finish_answers(
    test_projects: &[String],
    ignore_tests: bool,
    layers: &[LayerDef],
    picks: &[(usize, String)],
) -> (r: (Vec<String>, Vec<(String, String)>))
    requires
        forall|k: int| 0 <= k < picks@.len() ==> (#[trigger] picks@[k]).0 < layers@.len(),
    ensures
        string_views(r.0@) == (if ignore_tests && test_projects@.len() > 0 {
            string_views(test_projects@)
        } else {
            Seq::<Seq<char>>::empty()
        }),
        policy_views(r.1@) == policies_of(layers@, picks@),
{
    let mut ignore: Vec<String> = Vec::new();
    if ignore_tests && test_projects.len() > 0 {
        let mut i: usize = 0;
        while i < test_projects.len()
            invariant
                i <= test_projects@.len(),
                string_views(ignore@) == string_views(test_projects@).take(i as int),
            decreases test_projects@.len() - i,
        {
            let ghost prev = ignore@;
            let name = test_projects[i].clone();
            ignore.push(name);
            proof {
                assert(string_views(ignore@) =~= string_views(prev).push(name@));
                assert(string_views(ignore@) =~= string_views(test_projects@).take(i + 1));
            }
            i = i + 1;
        }
        proof {
            assert(string_views(test_projects@).take(test_projects@.len() as int) =~= string_views(
                test_projects@,
            ));
        }
    } else {
        proof {
            assert(string_views(ignore@) =~= Seq::<Seq<char>>::empty());
        }
    }
    let mut policies: Vec<(String, String)> = Vec::new();
    let mut k: usize = 0;
    while k < picks.len()
        invariant
            k <= picks@.len(),
            forall|j: int| 0 <= j < picks@.len() ==> (#[trigger] picks@[j]).0 < layers@.len(),
            policy_views(policies@) == policies_of(layers@, picks@).take(k as int),
        decreases picks@.len() - k,
    {
        let ghost prev = policies@;
        let idx = picks[k].0;
        let policy = (layers[idx].name.clone(), picks[k].1.clone());
        policies.push(policy);
        proof {
            assert(policy_views(policies@) =~= policy_views(prev).push((policy.0@, policy.1@)));
            assert(policy_views(policies@) =~= policies_of(layers@, picks@).take(k + 1));
        }
        k = k + 1;
    }
    proof {
        assert(policies_of(layers@, picks@).take(picks@.len() as int) =~= policies_of(
            layers@,
            picks@,
        ));
    }
    (ignore, policies)
}

/// No project of a confirmed tier is lost: each one either stays in the new layer or is
/// among the moved ones (which go to the pending list or to the layers below).
pub proof fn law_tier_projects_kept_or_moved(tier: Seq<Seq<char>>, moved: Seq<Seq<char>>, p: Seq<char>)
    requires
        tier.contains(p),
    ensures
        kept_projects(tier, moved).contains(p) || moved.contains(p),
        !(kept_projects(tier, moved).contains(p) && moved.contains(p)),
{
    let f = |q: Seq<char>| !moved.contains(q);
    if kept_projects(tier, moved).contains(p) {
        let k = choose|k: int|
            0 <= k < kept_projects(tier, moved).len() && kept_projects(tier, moved)[k] == p;
        tier.lemma_filter_pred(f, k);
    }
    if !moved.contains(p) {
        let i = choose|i: int| 0 <= i < tier.len() && tier[i] == p;
        tier.lemma_filter_contains(f, i);
    }
}

} // verus!
