//! The `architecture.toml` that `ark init` writes from the wizard's answers.

use vstd::prelude::*;

use crate::scaffold::LayerDef;
use crate::text::{append_str, chars_of, owned, string_from_chars};

verus! {

/// Everything the wizard collected.
#[derive(Debug)]
pub struct WizardAnswers {
    pub layers: Vec<LayerDef>,
    /// (from, to, allowed) dependency rules.
    pub rules: Vec<(String, String, bool)>,
    pub ignore_patterns: Vec<String>,
    /// (layer, forbidden package) pairs.
    pub package_policies: Vec<(String, String)>,
}

/// The position of the last `.` in `s`, if any.
pub open spec fn last_dot(s: Seq<char>) -> Option<int>
    decreases s.len(),
{
    if s.len() == 0 {
        None
    } else if s.last() == '.' {
        Some(s.len() - 1)
    } else {
        last_dot(s.drop_last())
    }
}

/// The glob pattern inferred for one project name: `*` and its last dotted segment
/// (`MyApp.Domain` gives `*.Domain`), or the name itself when it has no dot.
pub open spec fn pattern_for(name: Seq<char>) -> Seq<char> {
    match last_dot(name) {
        Some(pos) => seq!['*'] + name.subrange(pos, name.len() as int),
        None => name,
    }
}

/// The distinct patterns of the first `n` names, in first-seen order.
pub open spec fn inferred_patterns(names: Seq<Seq<char>>, n: nat) -> Seq<Seq<char>>
    decreases n,
{
    if n == 0 {
        seq![]
    } else {
        let prev = inferred_patterns(names, (n - 1) as nat);
        let p = pattern_for(names[n - 1]);
        if prev.contains(p) {
            prev
        } else {
            prev.push(p)
        }
    }
}

proof fn lemma_last_dot(s: Seq<char>)
    ensures
        last_dot(s) matches Some(p) ==> 0 <= p < s.len() && s[p] == '.' && forall|k: int|
            p < k < s.len() ==> s[k] != '.',
        last_dot(s) is None ==> forall|k: int| 0 <= k < s.len() ==> s[k] != '.',
    decreases s.len(),
{
    if s.len() > 0 {
        lemma_last_dot(s.drop_last());
        if s.last() != '.' {
            assert forall|k: int| 0 <= k < s.len() - 1 implies s[k] == s.drop_last()[k] by {}
        }
    }
}

/// The pattern for one project name.
fn pattern_of(name: &String) -> (r: String)
    ensures
        r@ == pattern_for(name@),
{
    let v = chars_of(name.as_str());
    let mut i: usize = v.len();
    while i > 0 && v[i - 1] != '.'
        invariant
            v@ == name@,
            i <= v@.len(),
            forall|k: int| i <= k < v@.len() ==> v@[k] != '.',
        decreases i,
    {
        i = i - 1;
    }
    proof {
        lemma_last_dot(name@);
    }
    if i == 0 {
        proof {
            if let Some(p) = last_dot(name@) {
                assert(v@[p] == '.');
            }
        }
        name.clone()
    } else {
        let pos = i - 1;
        proof {
            match last_dot(name@) {
                Some(p) => {
                    if p < pos {
                        assert(v@[pos as int] == '.');
                    }
                    if p > pos {
                        assert(v@[p] == '.');
                    }
                },
                None => {
                    assert(v@[pos as int] == '.');
                },
            }
        }
        let mut out: Vec<char> = Vec::new();
        out.push('*');
        let mut k: usize = pos;
        while k < v.len()
            invariant
                v@ == name@,
                pos <= k <= v@.len(),
                out@ == seq!['*'] + v@.subrange(pos as int, k as int),
            decreases v@.len() - k,
        {
            out.push(v[k]);
            proof {
                assert(seq!['*'] + v@.subrange(pos as int, k + 1) =~= (seq!['*'] + v@.subrange(
                    pos as int,
                    k as int,
                )).push(v@[k as int]));
            }
            k = k + 1;
        }
        string_from_chars(out.as_slice())
    }
}

/// Whether `v` holds a string equal to `s`.
fn contains_string(v: &Vec<String>, s: &String) -> (r: bool)
    ensures
        r == v@.map_values(|x: String| x@).contains(s@),
{
    let mut i: usize = 0;
    while i < v.len()
        invariant
            i <= v@.len(),
            forall|k: int| 0 <= k < i ==> v@[k]@ != s@,
        decreases v@.len() - i,
    {
        if v[i] == *s {
            proof {
                assert(v@.map_values(|x: String| x@)[i as int] == s@);
            }
            return true;
        }
        i = i + 1;
    }
    proof {
        let vs = v@.map_values(|x: String| x@);
        if vs.contains(s@) {
            let k = choose|k: int| 0 <= k < vs.len() && #[trigger] vs[k] == s@;
            assert(v@[k]@ == s@);
        }
    }
    false
}

/// The glob patterns for a layer's projects: one per distinct last dotted segment
/// (`*.Domain`), or the exact name for a name without a dot, in first-seen order.
pub fn infer_patterns(projects: &[String]) -> (r: Vec<String>)
    ensures
        r@.map_values(|x: String| x@) == inferred_patterns(
            projects@.map_values(|x: String| x@),
            projects@.len(),
        ),
{
    let ghost names = projects@.map_values(|x: String| x@);
    let mut patterns: Vec<String> = Vec::new();
    let mut i: usize = 0;
    while i < projects.len()
        invariant
            i <= projects@.len(),
            names == projects@.map_values(|x: String| x@),
            patterns@.map_values(|x: String| x@) == inferred_patterns(names, i as nat),
        decreases projects@.len() - i,
    {
        let pat = pattern_of(&projects[i]);
        proof {
            assert(names[i as int] == projects@[i as int]@);
        }
        if !contains_string(&patterns, &pat) {
            let ghost before = patterns@;
            patterns.push(pat);
            proof {
                assert(patterns@.map_values(|x: String| x@) =~= before.map_values(|x: String| x@).push(
                    pattern_for(names[i as int]),
                ));
            }
        }
        i = i + 1;
    }
    patterns
}

/// `"` + `s` + `"`.
pub open spec fn quoted(s: Seq<char>) -> Seq<char> {
    "\""@ + s + "\""@
}

/// The first `n` strings quoted and joined by `, `.
pub open spec fn quoted_list(items: Seq<Seq<char>>, n: nat) -> Seq<char>
    decreases n,
{
    if n == 0 {
        seq![]
    } else if n == 1 {
        quoted(items[0])
    } else {
        quoted_list(items, (n - 1) as nat) + ", "@ + quoted(items[n - 1])
    }
}

/// The TOML line of a layer.
pub open spec fn layer_toml_line(name: Seq<char>, projects: Seq<Seq<char>>) -> Seq<char> {
    let pats = inferred_patterns(projects, projects.len());
    "  { name = \""@ + name + "\", patterns = ["@ + quoted_list(pats, pats.len()) + "] },\n"@
}

/// The TOML line of a dependency rule.
pub open spec fn rule_toml_line(from: Seq<char>, to: Seq<char>, allowed: bool) -> Seq<char> {
    "  { from = \""@ + from + "\", to = \""@ + to + "\", allowed = "@ + (if allowed {
        "true"@
    } else {
        "false"@
    }) + " },\n"@
}

/// The TOML line of a package policy.
pub open spec fn policy_toml_line(layer: Seq<char>, pkg: Seq<char>) -> Seq<char> {
    "  { layer = \""@ + layer + "\", forbidden = [\""@ + pkg + "\"] },\n"@
}

/// The layer lines of the first `n` layers.
pub open spec fn layer_toml_lines(layers: Seq<LayerDef>, n: nat) -> Seq<char>
    decreases n,
{
    if n == 0 {
        seq![]
    } else {
        layer_toml_lines(layers, (n - 1) as nat) + layer_toml_line(
            layers[n - 1].name@,
            layers[n - 1].projects@.map_values(|x: String| x@),
        )
    }
}

/// The rule lines of the first `n` rules.
pub open spec fn rule_toml_lines(rules: Seq<(String, String, bool)>, n: nat) -> Seq<char>
    decreases n,
{
    if n == 0 {
        seq![]
    } else {
        rule_toml_lines(rules, (n - 1) as nat) + rule_toml_line(
            rules[n - 1].0@,
            rules[n - 1].1@,
            rules[n - 1].2,
        )
    }
}

/// The policy lines of the first `n` policies.
pub open spec fn policy_toml_lines(policies: Seq<(String, String)>, n: nat) -> Seq<char>
    decreases n,
{
    if n == 0 {
        seq![]
    } else {
        policy_toml_lines(policies, (n - 1) as nat) + policy_toml_line(
            policies[n - 1].0@,
            policies[n - 1].1@,
        )
    }
}

/// The whole generated file.
pub open spec fn toml_text(a: WizardAnswers) -> Seq<char> {
    let base = "# Generated by `ark init`\n\n"@ + "layers = [\n"@ + layer_toml_lines(
        a.layers@,
        a.layers@.len(),
    ) + "]\n\n"@ + "# Any dependency not listed here is forbidden by default.\n"@
        + "dependency_rules = [\n"@ + rule_toml_lines(a.rules@, a.rules@.len()) + "]\n"@;
    let with_policies = if a.package_policies@.len() > 0 {
        base + "\n"@ + "package_policies = [\n"@ + policy_toml_lines(
            a.package_policies@,
            a.package_policies@.len(),
        ) + "]\n"@
    } else {
        base
    };
    if a.ignore_patterns@.len() > 0 {
        let pats = a.ignore_patterns@.map_values(|x: String| x@);
        with_policies + "\n"@ + "ignore_patterns = ["@ + quoted_list(pats, pats.len()) + "]\n"@
    } else {
        with_policies
    }
}

/// Appends the quoted items joined by `, `.
fn append_quoted_list(out: &mut String, items: &[String])
    ensures
        final(out)@ == old(out)@ + quoted_list(items@.map_values(|x: String| x@), items@.len()),
{
    let ghost xs = items@.map_values(|x: String| x@);
    let ghost start = out@;
    let mut i: usize = 0;
    while i < items.len()
        invariant
            i <= items@.len(),
            xs == items@.map_values(|x: String| x@),
            out@ == start + quoted_list(xs, i as nat),
        decreases items@.len() - i,
    {
        let ghost before = out@;
        if i > 0 {
            append_str(out, ", ");
        }
        append_str(out, "\"");
        append_str(out, items[i].as_str());
        append_str(out, "\"");
        proof {
            assert(xs[i as int] == items@[i as int]@);
            if i == 0 {
                assert(out@ =~= start + quoted_list(xs, 1));
            } else {
                assert(out@ =~= start + quoted_list(xs, (i + 1) as nat));
            }
        }
        i = i + 1;
    }
}

/// Builds `architecture.toml`: a header comment, the layers with patterns inferred from
/// their projects, the dependency rules, and, when present, the package policies and the
/// ignore patterns.
pub fn build_toml(answers: &WizardAnswers) -> (r: String)
    ensures
        r@ == toml_text(*answers),
{
    let mut out = owned("# Generated by `ark init`\n\n");
    append_str(&mut out, "layers = [\n");
    let ghost start = out@;
    let mut i: usize = 0;
    while i < answers.layers.len()
        invariant
            i <= answers.layers@.len(),
            out@ == start + layer_toml_lines(answers.layers@, i as nat),
        decreases answers.layers@.len() - i,
    {
        let layer = &answers.layers[i];
        let pats = infer_patterns(layer.projects.as_slice());
        let ghost before = out@;
        append_str(&mut out, "  { name = \"");
        append_str(&mut out, layer.name.as_str());
        append_str(&mut out, "\", patterns = [");
        append_quoted_list(&mut out, pats.as_slice());
        append_str(&mut out, "] },\n");
        proof {
            assert(out@ =~= before + layer_toml_line(
                layer.name@,
                layer.projects@.map_values(|x: String| x@),
            ));
        }
        i = i + 1;
    }
    append_str(&mut out, "]\n\n");
    append_str(&mut out, "# Any dependency not listed here is forbidden by default.\n");
    append_str(&mut out, "dependency_rules = [\n");
    let ghost start = out@;
    let mut i: usize = 0;
    while i < answers.rules.len()
        invariant
            i <= answers.rules@.len(),
            out@ == start + rule_toml_lines(answers.rules@, i as nat),
        decreases answers.rules@.len() - i,
    {
        let rule = &answers.rules[i];
        let ghost before = out@;
        append_str(&mut out, "  { from = \"");
        append_str(&mut out, rule.0.as_str());
        append_str(&mut out, "\", to = \"");
        append_str(&mut out, rule.1.as_str());
        append_str(&mut out, "\", allowed = ");
        append_str(&mut out, if rule.2 { "true" } else { "false" });
        append_str(&mut out, " },\n");
        proof {
            assert(out@ =~= before + rule_toml_line(rule.0@, rule.1@, rule.2));
        }
        i = i + 1;
    }
    append_str(&mut out, "]\n");
    if answers.package_policies.len() > 0 {
        append_str(&mut out, "\n");
        append_str(&mut out, "package_policies = [\n");
        let ghost start = out@;
        let mut i: usize = 0;
        while i < answers.package_policies.len()
            invariant
                i <= answers.package_policies@.len(),
                out@ == start + policy_toml_lines(answers.package_policies@, i as nat),
            decreases answers.package_policies@.len() - i,
        {
            let policy = &answers.package_policies[i];
            let ghost before = out@;
            append_str(&mut out, "  { layer = \"");
            append_str(&mut out, policy.0.as_str());
            append_str(&mut out, "\", forbidden = [\"");
            append_str(&mut out, policy.1.as_str());
            append_str(&mut out, "\"] },\n");
            proof {
                assert(out@ =~= before + policy_toml_line(policy.0@, policy.1@));
            }
            i = i + 1;
        }
        append_str(&mut out, "]\n");
    }
    if answers.ignore_patterns.len() > 0 {
        append_str(&mut out, "\n");
        append_str(&mut out, "ignore_patterns = [");
        append_quoted_list(&mut out, answers.ignore_patterns.as_slice());
        append_str(&mut out, "]\n");
    }
    out
}

/// The inferred patterns never repeat, and every project name is matched by the pattern
/// inferred for it, which is among them.
pub proof fn law_inferred_patterns_distinct(names: Seq<Seq<char>>, n: nat)
    requires
        n <= names.len(),
    ensures
        inferred_patterns(names, n).no_duplicates(),
        forall|i: int| 0 <= i < n ==> inferred_patterns(names, n).contains(pattern_for(#[trigger] names[i])),
    decreases n,
{
    if n > 0 {
        law_inferred_patterns_distinct(names, (n - 1) as nat);
        let prev = inferred_patterns(names, (n - 1) as nat);
        let cur = inferred_patterns(names, n);
        let p = pattern_for(names[n - 1]);
        assert forall|i: int| 0 <= i < n implies cur.contains(pattern_for(#[trigger] names[i])) by {
            if i < n - 1 {
                let a = choose|a: int| 0 <= a < prev.len() && prev[a] == pattern_for(names[i]);
                if !prev.contains(p) {
                    assert(cur[a] == pattern_for(names[i]));
                }
            } else {
                if !prev.contains(p) {
                    assert(cur[cur.len() - 1] == p);
                }
            }
        }
        if !prev.contains(p) {
            assert forall|a: int, b: int| 0 <= a < cur.len() && 0 <= b < cur.len() && a != b implies cur[a]
                != cur[b] by {
                if a < prev.len() && b < prev.len() {
                } else if a < prev.len() {
                    assert(prev.contains(cur[a]));
                } else if b < prev.len() {
                    assert(prev.contains(cur[b]));
                }
            }
        }
    }
}

} // verus!
