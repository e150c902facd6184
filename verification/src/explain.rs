//! The text that explains which layer a project is in and what it may depend on.

use vstd::prelude::*;

use crate::check::{rule_selects, dependency_allowed};
use crate::config::{ArchitectureConfig, DependencyRule, Layer};
use crate::rules::{is_ignored, lemma_resolved_index, matches_any, resolve_layer_index, resolved_name};
use crate::search::{first_index, lemma_first_index, lemma_first_index_step};
use crate::text::{append_padded, append_str, owned, pad_right, str_eq};

verus! {

/// The status and tag columns of the rule line for a dependency of `from` on `to`.
pub open spec fn rule_columns(rules: Seq<DependencyRule>, from: Seq<char>, to: Seq<char>) -> (
    Seq<char>,
    Seq<char>,
) {
    match first_index(rules.len(), rule_selects(rules, from, to)) {
        Some(k) => if rules[k].allowed {
            ("allowed  "@, "[explicit]"@)
        } else {
            ("forbidden"@, "[explicit]"@)
        },
        None => ("forbidden"@, "[default] "@),
    }
}

/// The line for layer `other` in the rules of layer `from`; none for `from` itself.
pub open spec fn rule_line(rules: Seq<DependencyRule>, from: Seq<char>, other: Seq<char>) -> Seq<
    char,
> {
    if other == from {
        seq![]
    } else {
        let (status, tag) = rule_columns(rules, from, other);
        "  → "@ + pad_right(other, 24) + " "@ + status + "  "@ + tag + "\n"@
    }
}

/// The rule lines of the first `n` layers.
pub open spec fn rule_lines(config: ArchitectureConfig, from: Seq<char>, n: nat) -> Seq<char>
    decreases n,
{
    if n == 0 {
        seq![]
    } else {
        rule_lines(config, from, (n - 1) as nat) + rule_line(
            config.dependency_rules@,
            from,
            config.layers@[n - 1].name@,
        )
    }
}

/// Known project `p` is another project of layer `layer`.
pub open spec fn is_sibling(
    p: Seq<char>,
    project: Seq<char>,
    layers: Seq<Layer>,
    layer: Seq<char>,
) -> bool {
    p != project && resolved_name(p, layers, false) == Some(layer)
}

/// The sibling lines among the first `n` known projects.
pub open spec fn sibling_lines(
    known: Seq<Seq<char>>,
    project: Seq<char>,
    layers: Seq<Layer>,
    layer: Seq<char>,
    n: nat,
) -> Seq<char>
    decreases n,
{
    if n == 0 {
        seq![]
    } else {
        let prev = sibling_lines(known, project, layers, layer, (n - 1) as nat);
        if is_sibling(known[n - 1], project, layers, layer) {
            prev + "  "@ + known[n - 1] + "\n"@
        } else {
            prev
        }
    }
}

/// Some of the first `n` known projects is a sibling.
pub open spec fn has_sibling(
    known: Seq<Seq<char>>,
    project: Seq<char>,
    layers: Seq<Layer>,
    layer: Seq<char>,
    n: nat,
) -> bool {
    exists|k: int| 0 <= k < n && is_sibling(#[trigger] known[k], project, layers, layer)
}

/// The explanation of `project`.
pub open spec fn explanation(project: Seq<char>, config: ArchitectureConfig, known: Seq<Seq<char>>) -> Seq<
    char,
> {
    let head = "Project: "@ + project + "\n"@;
    if matches_any(project, config.ignore_patterns@) {
        head + "Layer:   (ignored — matches an ignorePattern)\n"@
    } else {
        match resolved_name(project, config.layers@, false) {
            None => head + "Layer:   (unmatched — no layer pattern matches this project name)\n"@,
            Some(layer) => {
                let body = head + "Layer:   "@ + layer + "\n\n"@ + "Dependency rules:\n"@
                    + rule_lines(config, layer, config.layers@.len());
                if has_sibling(known, project, config.layers@, layer, known.len()) {
                    body + "\nOther projects in this layer:\n"@ + sibling_lines(
                        known,
                        project,
                        config.layers@,
                        layer,
                        known.len(),
                    )
                } else {
                    body
                }
            },
        }
    }
}

/// Known project `p` is another project than `project` that the layers place (by project
/// name) in the same layer as `project`.
pub open spec fn layer_mate(project: Seq<char>, layers: Seq<Layer>) -> spec_fn(Seq<char>) -> bool {
    |p: Seq<char>| p != project && resolved_name(p, layers, false) == resolved_name(project, layers, false)
}

/// One indented line per name, in order.
pub open spec fn listed(names: Seq<Seq<char>>) -> Seq<char>
    decreases names.len(),
{
    if names.len() == 0 {
        seq![]
    } else {
        listed(names.drop_last()) + "  "@ + names.last() + "\n"@
    }
}

/// The explanation of a project of layer `layer` up to its rules: its name, its layer and
/// the rule for each other layer.
pub open spec fn explained_rules(project: Seq<char>, config: ArchitectureConfig, layer: Seq<char>) -> Seq<
    char,
> {
    "Project: "@ + project + "\n"@ + "Layer:   "@ + layer + "\n\n"@ + "Dependency rules:\n"@ + rule_lines(
        config,
        layer,
        config.layers@.len(),
    )
}

proof fn lemma_sibling_lines_listed(
    known: Seq<Seq<char>>,
    project: Seq<char>,
    layers: Seq<Layer>,
    n: nat,
)
    requires
        n <= known.len(),
        resolved_name(project, layers, false) is Some,
    ensures
        ({
            let layer = resolved_name(project, layers, false)->0;
            let mates = known.take(n as int).filter(layer_mate(project, layers));
            &&& sibling_lines(known, project, layers, layer, n) == listed(mates)
            &&& has_sibling(known, project, layers, layer, n) <==> mates.len() > 0
        }),
    decreases n,
{
    let layer = resolved_name(project, layers, false)->0;
    let pred = layer_mate(project, layers);
    if n == 0 {
        assert(known.take(0).filter(pred) =~= Seq::<Seq<char>>::empty());
    } else {
        let m = (n - 1) as nat;
        lemma_sibling_lines_listed(known, project, layers, m);
        let x = known[m as int];
        assert(known.take(n as int) =~= known.take(m as int).push(x));
        known.take(m as int).lemma_filter_push(x, pred);
        let pm = known.take(m as int).filter(pred);
        let cm = known.take(n as int).filter(pred);
        assert(pred(x) == is_sibling(x, project, layers, layer));
        if pred(x) {
            assert(cm == pm.push(x));
            assert(cm.drop_last() =~= pm);
            assert(has_sibling(known, project, layers, layer, n)) by {
                assert(is_sibling(known[m as int], project, layers, layer));
            }
        } else {
            assert(cm == pm);
            if has_sibling(known, project, layers, layer, n) {
                let k = choose|k: int| 0 <= k < n && is_sibling(#[trigger] known[k], project, layers, layer);
                assert(k < m);
                assert(has_sibling(known, project, layers, layer, m));
            }
        }
        if has_sibling(known, project, layers, layer, m) {
            let k = choose|k: int| 0 <= k < m && is_sibling(#[trigger] known[k], project, layers, layer);
            assert(has_sibling(known, project, layers, layer, n));
        }
    }
}

/// The explanation of a project that a layer claims and no ignore pattern matches: its
/// rules, then, when there are any, exactly the other known projects that the layers place
/// in the same layer, one per line, in the order they are known. A known project of another
/// layer, of no layer, or the project itself is never listed.
pub proof fn law_explain_lists_layer_mates(
    project: Seq<char>,
    config: ArchitectureConfig,
    known: Seq<Seq<char>>,
)
    requires
        !matches_any(project, config.ignore_patterns@),
        resolved_name(project, config.layers@, false) is Some,
    ensures
        ({
            let layer = resolved_name(project, config.layers@, false)->0;
            let mates = known.filter(layer_mate(project, config.layers@));
            &&& explanation(project, config, known) == explained_rules(project, config, layer) + if mates.len()
                > 0 {
                "\nOther projects in this layer:\n"@ + listed(mates)
            } else {
                seq![]
            }
            &&& forall|i: int|
                0 <= i < mates.len() ==> #[trigger] mates[i] != project && resolved_name(
                    mates[i],
                    config.layers@,
                    false,
                ) == Some(layer) && known.contains(mates[i])
            &&& forall|k: int|
                0 <= k < known.len() && known[k] != project && resolved_name(
                    #[trigger] known[k],
                    config.layers@,
                    false,
                ) == Some(layer) ==> mates.contains(known[k])
        }),
{
    let layers = config.layers@;
    let layer = resolved_name(project, layers, false)->0;
    let pred = layer_mate(project, layers);
    let mates = known.filter(pred);
    lemma_sibling_lines_listed(known, project, layers, known.len());
    assert(known.take(known.len() as int) =~= known);
    let e = explanation(project, config, known);
    if mates.len() > 0 {
        assert(e =~= explained_rules(project, config, layer) + ("\nOther projects in this layer:\n"@
            + listed(mates)));
    } else {
        assert(e =~= explained_rules(project, config, layer) + seq![]);
    }
    assert forall|i: int| 0 <= i < mates.len() implies #[trigger] mates[i] != project && resolved_name(
        mates[i],
        layers,
        false,
    ) == Some(layer) && known.contains(mates[i]) by {
        known.lemma_filter_pred(pred, i);
        known.lemma_filter_contains_rev(pred, mates[i]);
    }
    assert forall|k: int|
        0 <= k < known.len() && known[k] != project && resolved_name(
            #[trigger] known[k],
            layers,
            false,
        ) == Some(layer) implies mates.contains(known[k]) by {
        known.lemma_filter_contains(pred, k);
    }
}

/// The views of a slice of string slices.
pub open spec fn str_views(s: Seq<&str>) -> Seq<Seq<char>> {
    s.map_values(|x: &str| x@)
}

/// Appends the rule line of layer `other` for layer `from`.
fn append_rule_line(out: &mut String, rules: &[DependencyRule], from: &str, other: &str)
    ensures
        final(out)@ == old(out)@ + rule_line(rules@, from@, other@),
{
    if str_eq(other, from) {
        proof {
            assert(old(out)@ + seq![] =~= old(out)@);
        }
        return ;
    }
    let ghost p = rule_selects(rules@, from@, other@);
    let mut k: usize = 0;
    let mut found: Option<bool> = None;
    while k < rules.len() && found.is_none()
        invariant
            k <= rules@.len(),
            p == rule_selects(rules@, from@, other@),
            found is None ==> first_index(k as nat, p) is None,
            found matches Some(a) ==> first_index(rules@.len(), p) matches Some(j) && rules@[j].allowed
                == a,
        decreases rules@.len() - k,
    {
        let hit = str_eq(rules[k].from.as_str(), from) && str_eq(rules[k].to.as_str(), other);
        proof {
            assert(p(k as int) == hit);
            lemma_first_index_step(k as nat, p);
            lemma_first_index(k as nat, p);
            lemma_first_index(rules@.len(), p);
        }
        if hit {
            found = Some(rules[k].allowed);
        }
        k = k + 1;
    }
    let (status, tag) = match found {
        Some(true) => ("allowed  ", "[explicit]"),
        Some(false) => ("forbidden", "[explicit]"),
        None => ("forbidden", "[default] "),
    };
    let ghost start = out@;
    append_str(out, "  → ");
    append_padded(out, other, 24);
    append_str(out, " ");
    append_str(out, status);
    append_str(out, "  ");
    append_str(out, tag);
    append_str(out, "\n");
    proof {
        assert(rule_columns(rules@, from@, other@) == (status@, tag@));
        assert(out@ =~= start + ("  → "@ + pad_right(other@, 24) + " "@ + status@ + "  "@ + tag@
            + "\n"@));
    }
}

/// Describes `project`: whether it is ignored or unmatched, or else its layer, the rule for
/// each other layer (explicit or the default, forbidden), and the other known projects of
/// its layer.
pub fn describe_project(project: &str, config: &ArchitectureConfig, known_projects: &[&str]) -> (r:
    String)
    ensures
        r@ == explanation(project@, *config, str_views(known_projects@)),
{
    let mut out = owned("Project: ");
    append_str(&mut out, project);
    append_str(&mut out, "\n");
    if is_ignored(project, config.ignore_patterns.as_slice()) {
        append_str(&mut out, "Layer:   (ignored — matches an ignorePattern)\n");
        return out;
    }
    proof {
        lemma_resolved_index(project@, config.layers@, false);
    }
    let Some(li) = resolve_layer_index(project, config.layers.as_slice(), false) else {
        append_str(&mut out, "Layer:   (unmatched — no layer pattern matches this project name)\n");
        return out;
    };
    let layer = &config.layers[li].name;
    append_str(&mut out, "Layer:   ");
    append_str(&mut out, layer.as_str());
    append_str(&mut out, "\n\n");
    append_str(&mut out, "Dependency rules:\n");
    let ghost head = out@;
    let mut i: usize = 0;
    while i < config.layers.len()
        invariant
            i <= config.layers@.len(),
            out@ == head + rule_lines(*config, layer@, i as nat),
        decreases config.layers@.len() - i,
    {
        append_rule_line(
            &mut out,
            config.dependency_rules.as_slice(),
            layer.as_str(),
            config.layers[i].name.as_str(),
        );
        proof {
            assert(out@ =~= head + rule_lines(*config, layer@, (i + 1) as nat));
        }
        i = i + 1;
    }
    let ghost known = str_views(known_projects@);
    let mut lines = String::new();
    let mut any = false;
    let mut j: usize = 0;
    while j < known_projects.len()
        invariant
            j <= known_projects@.len(),
            known == str_views(known_projects@),
            lines@ == sibling_lines(known, project@, config.layers@, layer@, j as nat),
            any == has_sibling(known, project@, config.layers@, layer@, j as nat),
        decreases known_projects@.len() - j,
    {
        let p = known_projects[j];
        proof {
            lemma_resolved_index(p@, config.layers@, false);
            assert(known[j as int] == p@);
        }
        let same = match resolve_layer_index(p, config.layers.as_slice(), false) {
            Some(k) => str_eq(config.layers[k].name.as_str(), layer.as_str()),
            None => false,
        };
        let sibling = !str_eq(p, project) && same;
        proof {
            assert(sibling == is_sibling(known[j as int], project@, config.layers@, layer@));
        }
        if sibling {
            let ghost before = lines@;
            append_str(&mut lines, "  ");
            append_str(&mut lines, p);
            append_str(&mut lines, "\n");
            proof {
                assert(lines@ =~= before + "  "@ + p@ + "\n"@);
            }
        }
        proof {
            if !any && !sibling {
                assert forall|k: int| 0 <= k < j + 1 implies !is_sibling(
                    #[trigger] known[k],
                    project@,
                    config.layers@,
                    layer@,
                ) by {
                    if k < j {
                        assert(!has_sibling(known, project@, config.layers@, layer@, j as nat));
                    }
                }
            }
            if sibling {
                assert(is_sibling(known[j as int], project@, config.layers@, layer@));
            }
            if any {
                let w = choose|k: int|
                    0 <= k < j && is_sibling(
                        #[trigger] known[k],
                        project@,
                        config.layers@,
                        layer@,
                    );
                assert(0 <= w < j + 1);
            }
        }
        any = any || sibling;
        j = j + 1;
    }
    if any {
        append_str(&mut out, "\nOther projects in this layer:\n");
        append_str(&mut out, lines.as_str());
    }
    proof {
        assert(resolved_name(project@, config.layers@, false) == Some(layer@));
    }
    out
}

} // verus!
