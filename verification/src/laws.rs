//! What holds of the checks for every configuration, project and baseline.

use vstd::prelude::*;

use crate::baseline::{kept_pairs, stale_message, stale_warnings, EntryView};
use crate::check::{
    dependency_message, forbids, header_findings, policy_for, project_dependency_findings,
    project_dependency_warnings, project_package_findings, ref_finding, ref_target_name,
    rule_allows, rule_selects, source_message, unmatched_warning, using_finding, using_findings,
    Finding,
};
use crate::config::{ArchitectureConfig, PackagePolicy};
use crate::graph::{sanitized, sanitized_char};
use crate::project::{
    attr_raw, declaring_steps, law_references_in_document_order, parsed, raw_start, ref_views,
    span_holds_value, span_view, step_placed, tag_of, well_ended, xml_steps, ProjectFile,
    ProjectRef,
};
use crate::text::found_at;
use vstd::string::StringSliceAdditionalSpecFns;
use crate::report::ViolationView;
use crate::rules::{lemma_resolved_index, matches_any, resolved_name};
use crate::scanner::{
    directive_in_source, directive_view, directive_views, header_of, law_header_ranges, CsHeader,
    UsingDirective,
};
use vstd::utf8::{decode_utf8, encode_utf8};
use crate::search::lemma_first_index;
use crate::text::{ascii_lower_code, eq_ascii_case_insensitive};

verus! {

/// A reference between two projects of the same layer is never a violation.
pub proof fn law_same_layer_reference_allowed(
    p: ProjectFile,
    config: ArchitectureConfig,
    from: Seq<char>,
    r: ProjectRef,
)
    requires
        resolved_name(ref_target_name(r), config.layers@, false) == Some(from),
    ensures
        ref_finding(p, config, from, r) == Seq::<Finding>::empty(),
{
}

/// A reference to a project that no layer claims is never a violation.
pub proof fn law_reference_to_unmatched_project_skipped(
    p: ProjectFile,
    config: ArchitectureConfig,
    from: Seq<char>,
    r: ProjectRef,
)
    requires
        resolved_name(ref_target_name(r), config.layers@, false) is None,
    ensures
        ref_finding(p, config, from, r) == Seq::<Finding>::empty(),
{
}

/// A dependency between two different layers that no rule mentions is forbidden: the
/// reference is reported, once, with its message and its baseline key.
pub proof fn law_unlisted_dependency_forbidden(
    p: ProjectFile,
    config: ArchitectureConfig,
    from: Seq<char>,
    r: ProjectRef,
    to: Seq<char>,
)
    requires
        resolved_name(ref_target_name(r), config.layers@, false) == Some(to),
        from != to,
        forall|k: int|
            0 <= k < config.dependency_rules@.len() ==> !(
            #[trigger] config.dependency_rules@[k].from@ == from
                && config.dependency_rules@[k].to@ == to),
    ensures
        ref_finding(p, config, from, r) == seq![
            Finding {
                violation: ViolationView {
                    message: dependency_message(from, p.name@, to, ref_target_name(r)),
                    path: p.path@,
                    span: r.include_span,
                },
                key: EntryView { kind: "project_ref"@, from: p.name@, to: ref_target_name(r) },
            },
        ],
{
    let rules = config.dependency_rules@;
    let sel = rule_selects(rules, from, to);
    lemma_first_index(rules.len(), sel);
    assert forall|k: int| 0 <= k < rules.len() implies !#[trigger] sel(k) by {
        assert(!(rules[k].from@ == from && rules[k].to@ == to));
    }
    assert(!rule_allows(rules, from, to));
}

/// Between two different layers, the first rule for the pair decides: the reference is
/// reported exactly when that rule forbids the dependency.
pub proof fn law_first_rule_decides(
    p: ProjectFile,
    config: ArchitectureConfig,
    from: Seq<char>,
    r: ProjectRef,
    to: Seq<char>,
    k: int,
)
    requires
        resolved_name(ref_target_name(r), config.layers@, false) == Some(to),
        from != to,
        0 <= k < config.dependency_rules@.len(),
        config.dependency_rules@[k].from@ == from,
        config.dependency_rules@[k].to@ == to,
        forall|j: int|
            0 <= j < k ==> !(#[trigger] config.dependency_rules@[j].from@ == from
                && config.dependency_rules@[j].to@ == to),
    ensures
        ref_finding(p, config, from, r).len() == if config.dependency_rules@[k].allowed {
            0int
        } else {
            1int
        },
{
    let rules = config.dependency_rules@;
    let sel = rule_selects(rules, from, to);
    lemma_first_index(rules.len(), sel);
    assert(sel(k));
    let found = crate::search::first_index(rules.len(), sel);
    assert(found is Some);
    let i = found->0;
    if i < k {
        assert(!(rules[i].from@ == from && rules[i].to@ == to));
    }
    if i > k {
        assert(!sel(k));
    }
    assert(rule_allows(rules, from, to) == rules[k].allowed);
}

/// An ignored project is skipped entirely: no dependency or package violation, and no
/// warning.
pub proof fn law_ignored_project_skipped(p: ProjectFile, config: ArchitectureConfig)
    requires
        matches_any(p.name@, config.ignore_patterns@),
    ensures
        project_dependency_findings(p, config) == Seq::<Finding>::empty(),
        project_dependency_warnings(p, config) == Seq::<Seq<char>>::empty(),
        project_package_findings(p, config) == Seq::<Finding>::empty(),
{
}

/// A project that is not ignored and that no layer claims gets one warning and no
/// violation.
pub proof fn law_unmatched_project_warned(p: ProjectFile, config: ArchitectureConfig)
    requires
        !matches_any(p.name@, config.ignore_patterns@),
        resolved_name(p.name@, config.layers@, false) is None,
    ensures
        project_dependency_findings(p, config) == Seq::<Finding>::empty(),
        project_dependency_warnings(p, config) == seq![unmatched_warning(p.name@)],
        project_package_findings(p, config) == Seq::<Finding>::empty(),
{
}

proof fn lemma_ascii_case_trans(a: Seq<char>, b: Seq<char>, c: Seq<char>)
    requires
        eq_ascii_case_insensitive(a, b),
        eq_ascii_case_insensitive(b, c),
    ensures
        eq_ascii_case_insensitive(a, c),
{
    assert forall|i: int| 0 <= i < a.len() implies ascii_lower_code(a[i]) == ascii_lower_code(
        c[i],
    ) by {
        assert(ascii_lower_code(a[i]) == ascii_lower_code(b[i]));
        assert(ascii_lower_code(b[i]) == ascii_lower_code(c[i]));
    }
}

/// Package names are matched against a policy regardless of ASCII case: two names that
/// differ only in case are both forbidden or both allowed.
pub proof fn law_package_match_ignores_case(policy: PackagePolicy, a: Seq<char>, b: Seq<char>)
    requires
        eq_ascii_case_insensitive(a, b),
    ensures
        forbids(policy, a) == forbids(policy, b),
{
    assert forall|x: Seq<char>| eq_ascii_case_insensitive(x, a) implies eq_ascii_case_insensitive(
        x,
        b,
    ) by {
        lemma_ascii_case_trans(x, a, b);
    }
    assert(eq_ascii_case_insensitive(b, a)) by {
        assert forall|i: int| 0 <= i < b.len() implies ascii_lower_code(b[i]) == ascii_lower_code(
            a[i],
        ) by {
            assert(ascii_lower_code(a[i]) == ascii_lower_code(b[i]));
        }
    }
    assert forall|x: Seq<char>| eq_ascii_case_insensitive(x, b) implies eq_ascii_case_insensitive(
        x,
        a,
    ) by {
        lemma_ascii_case_trans(x, b, a);
    }
    if forbids(policy, a) {
        let j = choose|j: int|
            0 <= j < policy.forbidden@.len() && eq_ascii_case_insensitive(
                #[trigger] policy.forbidden@[j]@,
                a,
            );
        assert(eq_ascii_case_insensitive(policy.forbidden@[j]@, b));
    }
    if forbids(policy, b) {
        let j = choose|j: int|
            0 <= j < policy.forbidden@.len() && eq_ascii_case_insensitive(
                #[trigger] policy.forbidden@[j]@,
                b,
            );
        assert(eq_ascii_case_insensitive(policy.forbidden@[j]@, a));
    }
}

/// A layer without a package policy allows every package.
pub proof fn law_layer_without_policy_allows_packages(
    p: ProjectFile,
    config: ArchitectureConfig,
    layer: Seq<char>,
)
    requires
        resolved_name(p.name@, config.layers@, false) == Some(layer),
        policy_for(config.package_policies@, layer) is None,
    ensures
        project_package_findings(p, config) == Seq::<Finding>::empty(),
{
}

/// Without namespace patterns in any layer, no source file is ever reported.
pub proof fn law_no_namespace_patterns_no_source_findings(h: CsHeader, config: ArchitectureConfig)
    requires
        forall|i: int|
            0 <= i < config.layers@.len() ==> (#[trigger] config.layers@[i]).namespace_patterns@.len()
                == 0,
    ensures
        header_findings(h, config) == Seq::<Finding>::empty(),
{
    if let Some(ns) = h.namespace {
        lemma_resolved_index(ns@, config.layers@, true);
        assert forall|k: int| 0 <= k < config.layers@.len() implies !matches_any(
            ns@,
            crate::rules::layer_patterns(#[trigger] config.layers@[k], true),
        ) by {
            assert(config.layers@[k].namespace_patterns@.len() == 0);
        }
    }
}

/// A forbidden `using` directive of a file read from `source` is reported at the byte range
/// the directive recorded, `(start, end - start)`, and that range holds exactly the imported
/// namespace, wherever else its text occurs in the file.
pub proof fn law_using_violation_span(
    source: Seq<u8>,
    h: CsHeader,
    j: int,
    ns: Seq<char>,
    from: Seq<char>,
    config: ArchitectureConfig,
)
    requires
        directive_views(h.usings@) == header_of(source).1,
        0 <= j < h.usings@.len(),
        using_finding(h, ns, from, config, h.usings@[j]).len() > 0,
    ensures
        ({
            let u = h.usings@[j];
            let span = using_finding(h, ns, from, config, u)[0].violation.span;
            &&& span.0 == u.start_byte && span.0 + span.1 == u.end_byte
            &&& span.0 + span.1 <= source.len()
            &&& source.subrange(span.0 as int, span.0 + span.1) == encode_utf8(u.namespace@)
        }),
{
    law_header_ranges(source);
    assert(directive_views(h.usings@)[j] == directive_view(h.usings@[j]));
    assert(directive_in_source(source, header_of(source).1[j]));
}

/// A forbidden project reference of a project read from `content` is reported at the range
/// recorded for it: the value of the `Include` attribute of its own element, the `i`-th
/// `ProjectReference` with one in document order. Whenever the reference's text occurs in
/// that element's tag, the range holds exactly that text, wherever else it occurs in the file.
pub proof fn law_reference_violation_span(
    path: Seq<char>,
    content: Seq<char>,
    pf: ProjectFile,
    i: int,
    config: ArchitectureConfig,
    from: Seq<char>,
)
    requires
        parsed(path, content) is Ok,
        well_ended(xml_steps(content)),
        forall|k: int|
            0 <= k < xml_steps(content).len() ==> step_placed(
                encode_utf8(content),
                #[trigger] xml_steps(content)[k],
            ),
        ref_views(pf.project_refs@) == parsed(path, content)->Ok_0.0,
        0 <= i < pf.project_refs@.len(),
        ref_finding(pf, config, from, pf.project_refs@[i]).len() > 0,
    ensures
        ({
            let r = pf.project_refs@[i];
            let bytes = encode_utf8(content);
            let steps = xml_steps(content);
            let s = steps[declaring_steps(
                steps,
                "ProjectReference".spec_bytes(),
                (steps.len() - 1) as nat,
            )[i]];
            let span = ref_finding(pf, config, from, r)[0].violation.span;
            &&& span == r.include_span
            &&& span_holds_value(bytes, s, span_view(span))
            &&& found_at(tag_of(s)->0.raw, encode_utf8(r.target@)) is Some ==> bytes.subrange(
                span.0 as int,
                span.0 + span.1,
            ) == encode_utf8(r.target@)
        }),
{
    law_references_in_document_order(path, content);
    let steps = xml_steps(content);
    let n = (steps.len() - 1) as nat;
    let ri = declaring_steps(steps, "ProjectReference".spec_bytes(), n);
    let s = steps[ri[i]];
    let r = pf.project_refs@[i];
    let t = tag_of(s)->0;
    assert(ref_views(pf.project_refs@)[i] == parsed(path, content)->Ok_0.0[i]);
    let v = attr_raw(t, "Include".spec_bytes())->0;
    assert(r.target@ == decode_utf8(v));
    vstd::utf8::decode_utf8_encode_utf8(v);
}

/// Directive `u` of a file in layer `from` imports a namespace of another layer that no
/// rule allows `from` to depend on.
pub open spec fn forbidden_import(config: ArchitectureConfig, from: Seq<char>, u: UsingDirective) -> bool {
    match resolved_name(u.namespace@, config.layers@, true) {
        Some(to) => to != from && !rule_allows(config.dependency_rules@, from, to),
        None => false,
    }
}

/// The directives that `forbidden_import` picks out.
pub open spec fn forbidden_imports(config: ArchitectureConfig, from: Seq<char>) -> spec_fn(
    UsingDirective,
) -> bool {
    |u: UsingDirective| forbidden_import(config, from, u)
}

proof fn lemma_using_findings_filter(
    h: CsHeader,
    ns: Seq<char>,
    from: Seq<char>,
    config: ArchitectureConfig,
    n: nat,
)
    requires
        n <= h.usings@.len(),
    ensures
        ({
            let f = using_findings(h, ns, from, config, n);
            let us = h.usings@.take(n as int).filter(forbidden_imports(config, from));
            &&& f.len() == us.len()
            &&& forall|i: int|
                0 <= i < f.len() ==> (#[trigger] f[i]).key == (EntryView {
                    kind: "source"@,
                    from: ns,
                    to: us[i].namespace@,
                }) && f[i].violation == (ViolationView {
                    message: source_message(
                        from,
                        us[i].namespace@,
                        resolved_name(us[i].namespace@, config.layers@, true)->0,
                    ),
                    path: h.path@,
                    span: (us[i].start_byte, (us[i].end_byte - us[i].start_byte) as usize),
                })
        }),
    decreases n,
{
    if n > 0 {
        let m = (n - 1) as nat;
        lemma_using_findings_filter(h, ns, from, config, m);
        let u = h.usings@[m as int];
        let pred = forbidden_imports(config, from);
        assert(h.usings@.take(n as int) =~= h.usings@.take(m as int).push(u));
        h.usings@.take(m as int).lemma_filter_push(u, pred);
        let prev = using_findings(h, ns, from, config, m);
        let f = using_findings(h, ns, from, config, n);
        let pu = h.usings@.take(m as int).filter(pred);
        let us = h.usings@.take(n as int).filter(pred);
        if pred(u) {
            assert(us == pu.push(u));
            assert forall|i: int| 0 <= i < f.len() implies (#[trigger] f[i]).key == (EntryView {
                kind: "source"@,
                from: ns,
                to: us[i].namespace@,
            }) && f[i].violation == (ViolationView {
                message: source_message(
                    from,
                    us[i].namespace@,
                    resolved_name(us[i].namespace@, config.layers@, true)->0,
                ),
                path: h.path@,
                span: (us[i].start_byte, (us[i].end_byte - us[i].start_byte) as usize),
            }) by {
                if i < prev.len() {
                    assert(f[i] == prev[i]);
                    assert(us[i] == pu[i]);
                }
            }
        } else {
            assert(us == pu);
            assert(using_finding(h, ns, from, config, u) =~= Seq::<Finding>::empty());
            assert(f =~= prev);
        }
    } else {
        assert(h.usings@.take(0).filter(forbidden_imports(config, from)) =~= Seq::<UsingDirective>::empty());
    }
}

/// A file whose namespace layer `from` claims gets one finding per directive that imports
/// a namespace of another layer that no rule allows, in the order of the directives, and no
/// other: each with that directive's message, the file, the directive's own recorded range
/// and the key (`source`, the file's namespace, the imported namespace). Directives of the
/// same layer, of no layer, or allowed by a rule give none.
pub proof fn law_one_finding_per_forbidden_using(h: CsHeader, config: ArchitectureConfig)
    requires
        h.namespace is Some,
        resolved_name(h.namespace->0@, config.layers@, true) is Some,
    ensures
        ({
            let ns = h.namespace->0@;
            let from = resolved_name(ns, config.layers@, true)->0;
            let f = header_findings(h, config);
            let us = h.usings@.filter(forbidden_imports(config, from));
            &&& f.len() == us.len()
            &&& forall|i: int|
                0 <= i < f.len() ==> (#[trigger] f[i]).key == (EntryView {
                    kind: "source"@,
                    from: ns,
                    to: us[i].namespace@,
                }) && f[i].violation == (ViolationView {
                    message: source_message(
                        from,
                        us[i].namespace@,
                        resolved_name(us[i].namespace@, config.layers@, true)->0,
                    ),
                    path: h.path@,
                    span: (us[i].start_byte, (us[i].end_byte - us[i].start_byte) as usize),
                })
        }),
{
    let ns = h.namespace->0@;
    let from = resolved_name(ns, config.layers@, true)->0;
    lemma_using_findings_filter(h, ns, from, config, h.usings@.len());
    assert(h.usings@.take(h.usings@.len() as int) =~= h.usings@);
}

/// A `using` of a namespace of the file's own layer is never a violation.
pub proof fn law_same_layer_using_allowed(
    h: CsHeader,
    ns: Seq<char>,
    from: Seq<char>,
    config: ArchitectureConfig,
    u: UsingDirective,
)
    requires
        resolved_name(u.namespace@, config.layers@, true) == Some(from),
    ensures
        using_finding(h, ns, from, config, u) == Seq::<Finding>::empty(),
{
}

/// A baseline taken of a report's own keys suppresses every violation of that report.
pub proof fn law_own_baseline_suppresses_all(
    violations: Seq<ViolationView>,
    keys: Seq<EntryView>,
    n: nat,
)
    requires
        n <= keys.len(),
    ensures
        kept_pairs(violations, keys, keys, n) == (
            Seq::<ViolationView>::empty(),
            Seq::<EntryView>::empty(),
        ),
    decreases n,
{
    if n > 0 {
        law_own_baseline_suppresses_all(violations, keys, (n - 1) as nat);
        assert(keys.contains(keys[n - 1]));
    }
}

/// A baseline whose entries are all among the current keys has no stale entry.
pub proof fn law_current_baseline_not_stale(baseline: Seq<EntryView>, keys: Seq<EntryView>)
    requires
        forall|i: int| 0 <= i < baseline.len() ==> keys.contains(#[trigger] baseline[i]),
    ensures
        stale_warnings(baseline, keys) == Seq::<Seq<char>>::empty(),
    decreases baseline.len(),
{
    if baseline.len() > 0 {
        let init = baseline.drop_last();
        assert forall|i: int| 0 <= i < init.len() implies keys.contains(#[trigger] init[i]) by {
            assert(init[i] == baseline[i]);
        }
        law_current_baseline_not_stale(init, keys);
        assert(keys.contains(baseline[baseline.len() - 1]));
    }
}

/// A violation whose key is not in the baseline is kept, with its key: the check fails on
/// new violations only.
pub proof fn law_new_violation_kept(
    violations: Seq<ViolationView>,
    keys: Seq<EntryView>,
    baseline: Seq<EntryView>,
    n: nat,
    i: int,
)
    requires
        0 <= i < n,
        n <= violations.len(),
        n <= keys.len(),
        !baseline.contains(keys[i]),
    ensures
        kept_pairs(violations, keys, baseline, n).0.contains(violations[i]),
        kept_pairs(violations, keys, baseline, n).1.contains(keys[i]),
    decreases n,
{
    let prev = kept_pairs(violations, keys, baseline, (n - 1) as nat);
    if i < n - 1 {
        law_new_violation_kept(violations, keys, baseline, (n - 1) as nat, i);
        let a = choose|a: int| 0 <= a < prev.0.len() && prev.0[a] == violations[i];
        let b = choose|b: int| 0 <= b < prev.1.len() && prev.1[b] == keys[i];
        let cur = kept_pairs(violations, keys, baseline, n);
        if !baseline.contains(keys[n - 1]) {
            assert(cur.0[a] == violations[i]);
            assert(cur.1[b] == keys[i]);
        }
    } else {
        let cur = kept_pairs(violations, keys, baseline, n);
        assert(cur.0[cur.0.len() - 1] == violations[i]);
        assert(cur.1[cur.1.len() - 1] == keys[i]);
    }
}

/// A violation whose key is in the baseline is suppressed: its key is not among the kept
/// keys.
pub proof fn law_baselined_violation_suppressed(
    violations: Seq<ViolationView>,
    keys: Seq<EntryView>,
    baseline: Seq<EntryView>,
    n: nat,
    x: EntryView,
)
    requires
        n <= keys.len(),
        baseline.contains(x),
    ensures
        !kept_pairs(violations, keys, baseline, n).1.contains(x),
    decreases n,
{
    if n > 0 {
        law_baselined_violation_suppressed(violations, keys, baseline, (n - 1) as nat, x);
        let prev = kept_pairs(violations, keys, baseline, (n - 1) as nat);
        let cur = kept_pairs(violations, keys, baseline, n);
        if !baseline.contains(keys[n - 1]) {
            if cur.1.contains(x) {
                let a = choose|a: int| 0 <= a < cur.1.len() && cur.1[a] == x;
                if a < prev.1.len() {
                    assert(prev.1[a] == x);
                }
            }
        }
    }
}

/// Every baseline entry that no current violation has any more is reported as stale.
pub proof fn law_stale_entry_warned(baseline: Seq<EntryView>, keys: Seq<EntryView>, i: int)
    requires
        0 <= i < baseline.len(),
        !keys.contains(baseline[i]),
    ensures
        stale_warnings(baseline, keys).contains(stale_message(baseline[i])),
    decreases baseline.len(),
{
    let init = baseline.drop_last();
    let prev = stale_warnings(init, keys);
    let cur = stale_warnings(baseline, keys);
    if i < baseline.len() - 1 {
        assert(init[i] == baseline[i]);
        law_stale_entry_warned(init, keys, i);
        let a = choose|a: int| 0 <= a < prev.len() && prev[a] == stale_message(baseline[i]);
        if !keys.contains(baseline.last()) {
            assert(cur[a] == stale_message(baseline[i]));
        } else {
            assert(cur[a] == stale_message(baseline[i]));
        }
    } else {
        assert(cur[cur.len() - 1] == stale_message(baseline[i]));
    }
}

/// A sanitized id holds no `.`, `-` or space, and sanitizing it again changes nothing.
pub proof fn law_sanitized_ids(s: Seq<char>)
    ensures
        forall|i: int|
            0 <= i < sanitized(s).len() ==> #[trigger] sanitized(s)[i] != '.' && sanitized(s)[i]
                != '-' && sanitized(s)[i] != ' ',
        sanitized(sanitized(s)) == sanitized(s),
        sanitized(s).len() == s.len(),
{
    assert(sanitized(sanitized(s)) =~= sanitized(s));
}

} // verus!
