//! The architectural checks: project references between layers, forbidden packages, and
//! `using` directives between namespaces of different layers.

use vstd::prelude::*;

use crate::baseline::{entry_views, BaselineEntry, EntryView};
use crate::config::{ArchitectureConfig, DependencyRule, PackagePolicy};
use crate::paths::{file_stem, file_stem_of};
use crate::project::{PackageRef, ProjectFile, ProjectRef};
use crate::report::{string_views, violation_views, CheckReport, Violation, ViolationView};
use crate::rules::{
    is_ignored, lemma_resolved_index, matches_any, resolve_layer_index, resolved_index,
    resolved_name,
};
use crate::scanner::{ranges_ordered, CsHeader, UsingDirective};
use crate::search::{first_index, lemma_first_index, lemma_first_index_step};
use crate::text::{append_str, eq_ascii_case_insensitive, eq_ignore_ascii_case, owned, str_eq};

verus! {

/// A violation together with its baseline key.
pub struct Finding {
    pub violation: ViolationView,
    pub key: EntryView,
}

/// The violations of a sequence of findings.
pub open spec fn finding_violations(fs: Seq<Finding>) -> Seq<ViolationView> {
    fs.map_values(|f: Finding| f.violation)
}

/// The keys of a sequence of findings.
pub open spec fn finding_keys(fs: Seq<Finding>) -> Seq<EntryView> {
    fs.map_values(|f: Finding| f.key)
}

/// The name of the project that a reference points to: the stem of its resolved path, or
/// the `Include` attribute when there is none.
pub open spec fn ref_target_name(r: ProjectRef) -> Seq<char> {
    match r.resolved {
        Some(p) => match file_stem_of(p@) {
            Some(s) => s,
            None => r.target@,
        },
        None => r.target@,
    }
}

/// The name of the project that `pref` points to.
pub fn dependency_name(pref: &ProjectRef) -> (r: String)
    ensures
        r@ == ref_target_name(*pref),
{
    match &pref.resolved {
        Some(p) => match file_stem(p.as_str()) {
            Some(s) => s,
            None => pref.target.clone(),
        },
        None => pref.target.clone(),
    }
}

/// Rule `k` is about the dependency of layer `from` on layer `to`.
pub open spec fn rule_selects(rules: Seq<DependencyRule>, from: Seq<char>, to: Seq<char>) -> spec_fn(
    int,
) -> bool {
    |k: int| rules[k].from@ == from && rules[k].to@ == to
}

/// Whether layer `from` may depend on layer `to`: the first rule for the pair decides, and
/// without one the dependency is forbidden.
pub open spec fn rule_allows(rules: Seq<DependencyRule>, from: Seq<char>, to: Seq<char>) -> bool {
    match first_index(rules.len(), rule_selects(rules, from, to)) {
        Some(k) => rules[k].allowed,
        None => false,
    }
}

/// Whether `rules` allow layer `from` to depend on layer `to`.
pub fn dependency_allowed(rules: &[DependencyRule], from: &str, to: &str) -> (r: bool)
    ensures
        r == rule_allows(rules@, from@, to@),
{
    let ghost p = rule_selects(rules@, from@, to@);
    let mut k: usize = 0;
    while k < rules.len()
        invariant
            k <= rules@.len(),
            p == rule_selects(rules@, from@, to@),
            first_index(k as nat, p) is None,
        decreases rules@.len() - k,
    {
        let hit = str_eq(rules[k].from.as_str(), from) && str_eq(rules[k].to.as_str(), to);
        proof {
            assert(p(k as int) == hit);
            lemma_first_index_step(k as nat, p);
            lemma_first_index(k as nat, p);
            lemma_first_index(rules@.len(), p);
        }
        if hit {
            return rules[k].allowed;
        }
        k = k + 1;
    }
    false
}

/// The warning for a project that no layer claims.
pub open spec fn unmatched_warning(project: Seq<char>) -> Seq<char> {
    "Project '"@ + project + "' does not match any layer pattern"@
}

/// The message of a forbidden project reference.
pub open spec fn dependency_message(
    from_layer: Seq<char>,
    project: Seq<char>,
    to_layer: Seq<char>,
    dep: Seq<char>,
) -> Seq<char> {
    "Layer '"@ + from_layer + "' ("@ + project + ") must not depend on layer '"@ + to_layer
        + "' ("@ + dep + ")"@
}

/// The finding of reference `r` of project `p`, whose layer is `from`, if it is forbidden.
pub open spec fn ref_finding(
    p: ProjectFile,
    config: ArchitectureConfig,
    from: Seq<char>,
    r: ProjectRef,
) -> Seq<Finding> {
    let dep = ref_target_name(r);
    match resolved_name(dep, config.layers@, false) {
        None => seq![],
        Some(to) => if from == to || rule_allows(config.dependency_rules@, from, to) {
            seq![]
        } else {
            seq![
                Finding {
                    violation: ViolationView {
                        message: dependency_message(from, p.name@, to, dep),
                        path: p.path@,
                        span: r.include_span,
                    },
                    key: EntryView { kind: "project_ref"@, from: p.name@, to: dep },
                },
            ]
        },
    }
}

/// The findings of the first `n` project references of `p`.
pub open spec fn ref_findings(p: ProjectFile, config: ArchitectureConfig, from: Seq<char>, n: nat) -> Seq<
    Finding,
>
    decreases n,
{
    if n == 0 {
        seq![]
    } else {
        ref_findings(p, config, from, (n - 1) as nat) + ref_finding(
            p,
            config,
            from,
            p.project_refs@[n - 1],
        )
    }
}

/// The dependency findings of project `p`: none when it is ignored or unmatched.
pub open spec fn project_dependency_findings(p: ProjectFile, config: ArchitectureConfig) -> Seq<
    Finding,
> {
    if matches_any(p.name@, config.ignore_patterns@) {
        seq![]
    } else {
        match resolved_name(p.name@, config.layers@, false) {
            None => seq![],
            Some(from) => ref_findings(p, config, from, p.project_refs@.len()),
        }
    }
}

/// The dependency warnings of project `p`: one when it is neither ignored nor matched.
pub open spec fn project_dependency_warnings(p: ProjectFile, config: ArchitectureConfig) -> Seq<
    Seq<char>,
> {
    if !matches_any(p.name@, config.ignore_patterns@) && resolved_name(
        p.name@,
        config.layers@,
        false,
    ) is None {
        seq![unmatched_warning(p.name@)]
    } else {
        seq![]
    }
}

/// The dependency findings of the first `n` projects.
pub open spec fn dependency_findings(
    projects: Seq<ProjectFile>,
    config: ArchitectureConfig,
    n: nat,
) -> Seq<Finding>
    decreases n,
{
    if n == 0 {
        seq![]
    } else {
        dependency_findings(projects, config, (n - 1) as nat) + project_dependency_findings(
            projects[n - 1],
            config,
        )
    }
}

/// The dependency warnings of the first `n` projects.
pub open spec fn dependency_warnings(
    projects: Seq<ProjectFile>,
    config: ArchitectureConfig,
    n: nat,
) -> Seq<Seq<char>>
    decreases n,
{
    if n == 0 {
        seq![]
    } else {
        dependency_warnings(projects, config, (n - 1) as nat) + project_dependency_warnings(
            projects[n - 1],
            config,
        )
    }
}

/// `report` grew by exactly the findings `fs` and the warnings `ws`.
pub open spec fn report_extended(
    before: CheckReport,
    after: CheckReport,
    fs: Seq<Finding>,
    ws: Seq<Seq<char>>,
) -> bool {
    &&& violation_views(after.violations@) == violation_views(before.violations@)
        + finding_violations(fs)
    &&& entry_views(after.violation_keys@) == entry_views(before.violation_keys@) + finding_keys(fs)
    &&& string_views(after.warnings@) == string_views(before.warnings@) + ws
}

/// Adds a violation and its key to the report.
fn push_finding(report: &mut CheckReport, v: Violation, k: BaselineEntry)
    ensures
        report_extended(
            *old(report),
            *final(report),
            seq![Finding { violation: v@, key: k@ }],
            seq![],
        ),
{
    let ghost f = Finding { violation: v@, key: k@ };
    report.violations.push(v);
    report.violation_keys.push(k);
    proof {
        assert(violation_views(report.violations@) =~= violation_views(old(report).violations@)
            + finding_violations(seq![f]));
        assert(entry_views(report.violation_keys@) =~= entry_views(old(report).violation_keys@)
            + finding_keys(seq![f]));
        assert(string_views(report.warnings@) =~= string_views(old(report).warnings@) + seq![]);
    }
}

/// Adds a warning to the report.
fn push_warning(report: &mut CheckReport, w: String)
    ensures
        report_extended(*old(report), *final(report), seq![], seq![w@]),
{
    report.warnings.push(w);
    proof {
        assert(violation_views(report.violations@) =~= violation_views(old(report).violations@)
            + finding_violations(seq![]));
        assert(entry_views(report.violation_keys@) =~= entry_views(old(report).violation_keys@)
            + finding_keys(seq![]));
        assert(string_views(report.warnings@) =~= string_views(old(report).warnings@) + seq![
            w@,
        ]);
    }
}

/// Growing a report twice grows it by the concatenations.
proof fn lemma_report_extended_trans(
    a: CheckReport,
    b: CheckReport,
    c: CheckReport,
    fs1: Seq<Finding>,
    ws1: Seq<Seq<char>>,
    fs2: Seq<Finding>,
    ws2: Seq<Seq<char>>,
)
    requires
        report_extended(a, b, fs1, ws1),
        report_extended(b, c, fs2, ws2),
    ensures
        report_extended(a, c, fs1 + fs2, ws1 + ws2),
{
    assert(finding_violations(fs1 + fs2) =~= finding_violations(fs1) + finding_violations(fs2));
    assert(finding_keys(fs1 + fs2) =~= finding_keys(fs1) + finding_keys(fs2));
    assert(violation_views(c.violations@) =~= violation_views(a.violations@) + finding_violations(
        fs1 + fs2,
    ));
    assert(entry_views(c.violation_keys@) =~= entry_views(a.violation_keys@) + finding_keys(
        fs1 + fs2,
    ));
    assert(string_views(c.warnings@) =~= string_views(a.warnings@) + (ws1 + ws2));
}

/// A report grows by nothing when unchanged.
proof fn lemma_report_extended_refl(a: CheckReport)
    ensures
        report_extended(a, a, seq![], seq![]),
{
    assert(violation_views(a.violations@) =~= violation_views(a.violations@) + finding_violations(
        seq![],
    ));
    assert(entry_views(a.violation_keys@) =~= entry_views(a.violation_keys@) + finding_keys(
        seq![],
    ));
    assert(string_views(a.warnings@) =~= string_views(a.warnings@) + seq![]);
}

fn unmatched_warning_text(project: &str) -> (r: String)
    ensures
        r@ == unmatched_warning(project@),
{
    let mut s = owned("Project '");
    append_str(&mut s, project);
    append_str(&mut s, "' does not match any layer pattern");
    s
}

fn dependency_message_text(from_layer: &str, project: &str, to_layer: &str, dep: &str) -> (r:
    String)
    ensures
        r@ == dependency_message(from_layer@, project@, to_layer@, dep@),
{
    let mut s = owned("Layer '");
    append_str(&mut s, from_layer);
    append_str(&mut s, "' (");
    append_str(&mut s, project);
    append_str(&mut s, ") must not depend on layer '");
    append_str(&mut s, to_layer);
    append_str(&mut s, "' (");
    append_str(&mut s, dep);
    append_str(&mut s, ")");
    s
}

/// Checks one project reference of `project`, whose layer is `from`.
fn check_reference(
    project: &ProjectFile,
    pref: &ProjectRef,
    config: &ArchitectureConfig,
    from: &String,
    report: &mut CheckReport,
)
    ensures
        report_extended(
            *old(report),
            *final(report),
            ref_finding(*project, *config, from@, *pref),
            seq![],
        ),
{
    let dep_name = dependency_name(pref);
    proof {
        lemma_resolved_index(dep_name@, config.layers@, false);
    }
    let Some(ti) = resolve_layer_index(dep_name.as_str(), config.layers.as_slice(), false) else {
        proof {
            lemma_report_extended_refl(*report);
        }
        return ;
    };
    let to = &config.layers[ti].name;
    if str_eq(from.as_str(), to.as_str()) {
        proof {
            lemma_report_extended_refl(*report);
        }
        return ;
    }
    if dependency_allowed(config.dependency_rules.as_slice(), from.as_str(), to.as_str()) {
        proof {
            lemma_report_extended_refl(*report);
        }
        return ;
    }
    let message = dependency_message_text(
        from.as_str(),
        project.name.as_str(),
        to.as_str(),
        dep_name.as_str(),
    );
    let key = BaselineEntry::new("project_ref", project.name.as_str(), dep_name.as_str());
    let v = Violation { message, path: project.path.clone(), span: pref.include_span };
    push_finding(report, v, key);
}

/// Checks every project reference of every project against the layers and the dependency
/// rules: an ignored project is skipped, a project that no layer claims gets a warning, a
/// reference to a project of no layer or of the same layer passes, and a reference across
/// layers that no rule allows is a violation.
pub fn check_dependency_rules(
    projects: &[ProjectFile],
    config: &ArchitectureConfig,
    report: &mut CheckReport,
)
    ensures
        report_extended(
            *old(report),
            *final(report),
            dependency_findings(projects@, *config, projects@.len()),
            dependency_warnings(projects@, *config, projects@.len()),
        ),
{
    proof {
        lemma_report_extended_refl(*report);
    }
    let mut i: usize = 0;
    while i < projects.len()
        invariant
            i <= projects@.len(),
            report_extended(
                *old(report),
                *report,
                dependency_findings(projects@, *config, i as nat),
                dependency_warnings(projects@, *config, i as nat),
            ),
        decreases projects@.len() - i,
    {
        let project = &projects[i];
        let ghost before = *report;
        if is_ignored(project.name.as_str(), config.ignore_patterns.as_slice()) {
            proof {
                lemma_report_extended_refl(before);
                lemma_report_extended_trans(
                    *old(report),
                    before,
                    *report,
                    dependency_findings(projects@, *config, i as nat),
                    dependency_warnings(projects@, *config, i as nat),
                    seq![],
                    seq![],
                );
                assert(dependency_findings(projects@, *config, i as nat) + seq![]
                    =~= dependency_findings(projects@, *config, (i + 1) as nat));
                assert(dependency_warnings(projects@, *config, i as nat) + seq![]
                    =~= dependency_warnings(projects@, *config, (i + 1) as nat));
            }
            i = i + 1;
            continue ;
        }
        proof {
            lemma_resolved_index(project.name@, config.layers@, false);
        }
        match resolve_layer_index(project.name.as_str(), config.layers.as_slice(), false) {
            None => {
                let w = unmatched_warning_text(project.name.as_str());
                push_warning(report, w);
                proof {
                    lemma_report_extended_trans(
                        *old(report),
                        before,
                        *report,
                        dependency_findings(projects@, *config, i as nat),
                        dependency_warnings(projects@, *config, i as nat),
                        seq![],
                        seq![unmatched_warning(project.name@)],
                    );
                    assert(dependency_findings(projects@, *config, i as nat) + seq![]
                        =~= dependency_findings(projects@, *config, (i + 1) as nat));
                }
            },
            Some(fi) => {
                let from = &config.layers[fi].name;
                let mut j: usize = 0;
                proof {
                    lemma_report_extended_refl(*report);
                }
                while j < project.project_refs.len()
                    invariant
                        j <= project.project_refs@.len(),
                        report_extended(
                            before,
                            *report,
                            ref_findings(*project, *config, from@, j as nat),
                            seq![],
                        ),
                    decreases project.project_refs@.len() - j,
                {
                    let ghost mid = *report;
                    check_reference(project, &project.project_refs[j], config, from, report);
                    proof {
                        lemma_report_extended_trans(
                            before,
                            mid,
                            *report,
                            ref_findings(*project, *config, from@, j as nat),
                            seq![],
                            ref_finding(*project, *config, from@, project.project_refs@[j as int]),
                            seq![],
                        );
                        assert(seq![] + seq![] =~= Seq::<Seq<char>>::empty());
                    }
                    j = j + 1;
                }
                proof {
                    lemma_report_extended_trans(
                        *old(report),
                        before,
                        *report,
                        dependency_findings(projects@, *config, i as nat),
                        dependency_warnings(projects@, *config, i as nat),
                        ref_findings(*project, *config, from@, project.project_refs@.len()),
                        seq![],
                    );
                    assert(dependency_warnings(projects@, *config, i as nat) + seq![]
                        =~= dependency_warnings(projects@, *config, (i + 1) as nat));
                }
            },
        }
        i = i + 1;
    }
}


/// Policy `k` is the one for layer `layer`.
pub open spec fn policy_selects(policies: Seq<PackagePolicy>, layer: Seq<char>) -> spec_fn(
    int,
) -> bool {
    |k: int| policies[k].layer@ == layer
}

/// The index of the first package policy of layer `layer`, if any.
pub open spec fn policy_for(policies: Seq<PackagePolicy>, layer: Seq<char>) -> Option<int> {
    first_index(policies.len(), policy_selects(policies, layer))
}

/// `policy` forbids package `pkg`, names compared up to ASCII case.
pub open spec fn forbids(policy: PackagePolicy, pkg: Seq<char>) -> bool {
    exists|j: int|
        0 <= j < policy.forbidden@.len() && eq_ascii_case_insensitive(
            #[trigger] policy.forbidden@[j]@,
            pkg,
        )
}

/// The message of a forbidden package.
pub open spec fn package_message(pkg: Seq<char>, layer: Seq<char>) -> Seq<char> {
    "Package '"@ + pkg + "' is forbidden in layer '"@ + layer + "'"@
}

/// The finding of package reference `pkg` of project `p` in layer `layer` under `policy`.
pub open spec fn package_finding(
    p: ProjectFile,
    layer: Seq<char>,
    policy: PackagePolicy,
    pkg: PackageRef,
) -> Seq<Finding> {
    if forbids(policy, pkg.name@) {
        seq![
            Finding {
                violation: ViolationView {
                    message: package_message(pkg.name@, layer),
                    path: p.path@,
                    span: pkg.name_span,
                },
                key: EntryView { kind: "package"@, from: p.name@, to: pkg.name@ },
            },
        ]
    } else {
        seq![]
    }
}

/// The findings of the first `n` package references of `p`.
pub open spec fn package_ref_findings(
    p: ProjectFile,
    layer: Seq<char>,
    policy: PackagePolicy,
    n: nat,
) -> Seq<Finding>
    decreases n,
{
    if n == 0 {
        seq![]
    } else {
        package_ref_findings(p, layer, policy, (n - 1) as nat) + package_finding(
            p,
            layer,
            policy,
            p.package_refs@[n - 1],
        )
    }
}

/// The package findings of project `p`: none when it is ignored, unmatched, or its layer
/// has no policy.
pub open spec fn project_package_findings(p: ProjectFile, config: ArchitectureConfig) -> Seq<
    Finding,
> {
    if matches_any(p.name@, config.ignore_patterns@) {
        seq![]
    } else {
        match resolved_name(p.name@, config.layers@, false) {
            None => seq![],
            Some(layer) => match policy_for(config.package_policies@, layer) {
                None => seq![],
                Some(k) => package_ref_findings(
                    p,
                    layer,
                    config.package_policies@[k],
                    p.package_refs@.len(),
                ),
            },
        }
    }
}

/// The package findings of the first `n` projects.
pub open spec fn package_findings(projects: Seq<ProjectFile>, config: ArchitectureConfig, n: nat) -> Seq<
    Finding,
>
    decreases n,
{
    if n == 0 {
        seq![]
    } else {
        package_findings(projects, config, (n - 1) as nat) + project_package_findings(
            projects[n - 1],
            config,
        )
    }
}

/// The index of the first policy for layer `layer`.
fn find_policy(policies: &[PackagePolicy], layer: &str) -> (r: Option<usize>)
    ensures
        r matches Some(k) ==> policy_for(policies@, layer@) == Some(k as int) && k
            < policies@.len(),
        r is None ==> policy_for(policies@, layer@) is None,
{
    let ghost p = policy_selects(policies@, layer@);
    let mut k: usize = 0;
    while k < policies.len()
        invariant
            k <= policies@.len(),
            p == policy_selects(policies@, layer@),
            first_index(k as nat, p) is None,
        decreases policies@.len() - k,
    {
        let hit = str_eq(policies[k].layer.as_str(), layer);
        proof {
            assert(p(k as int) == hit);
            lemma_first_index_step(k as nat, p);
            lemma_first_index(k as nat, p);
            lemma_first_index(policies@.len(), p);
        }
        if hit {
            return Some(k);
        }
        k = k + 1;
    }
    None
}

/// Whether `policy` forbids the package `pkg`.
fn policy_forbids(policy: &PackagePolicy, pkg: &str) -> (r: bool)
    ensures
        r == forbids(*policy, pkg@),
{
    let mut j: usize = 0;
    while j < policy.forbidden.len()
        invariant
            j <= policy.forbidden@.len(),
            forall|k: int|
                0 <= k < j ==> !eq_ascii_case_insensitive(#[trigger] policy.forbidden@[k]@, pkg@),
        decreases policy.forbidden@.len() - j,
    {
        if eq_ignore_ascii_case(policy.forbidden[j].as_str(), pkg) {
            return true;
        }
        j = j + 1;
    }
    false
}

fn package_message_text(pkg: &str, layer: &str) -> (r: String)
    ensures
        r@ == package_message(pkg@, layer@),
{
    let mut s = owned("Package '");
    append_str(&mut s, pkg);
    append_str(&mut s, "' is forbidden in layer '");
    append_str(&mut s, layer);
    append_str(&mut s, "'");
    s
}

/// Checks the packages of one project whose layer is `layer` against `policy`.
fn check_project_packages(
    project: &ProjectFile,
    layer: &String,
    policy: &PackagePolicy,
    report: &mut CheckReport,
)
    ensures
        report_extended(
            *old(report),
            *final(report),
            package_ref_findings(*project, layer@, *policy, project.package_refs@.len()),
            seq![],
        ),
{
    proof {
        lemma_report_extended_refl(*report);
    }
    let mut j: usize = 0;
    while j < project.package_refs.len()
        invariant
            j <= project.package_refs@.len(),
            report_extended(
                *old(report),
                *report,
                package_ref_findings(*project, layer@, *policy, j as nat),
                seq![],
            ),
        decreases project.package_refs@.len() - j,
    {
        let pkg = &project.package_refs[j];
        let ghost mid = *report;
        if policy_forbids(policy, pkg.name.as_str()) {
            let message = package_message_text(pkg.name.as_str(), layer.as_str());
            let key = BaselineEntry::new("package", project.name.as_str(), pkg.name.as_str());
            let v = Violation { message, path: project.path.clone(), span: pkg.name_span };
            push_finding(report, v, key);
        } else {
            proof {
                lemma_report_extended_refl(*report);
            }
        }
        proof {
            lemma_report_extended_trans(
                *old(report),
                mid,
                *report,
                package_ref_findings(*project, layer@, *policy, j as nat),
                seq![],
                package_finding(*project, layer@, *policy, project.package_refs@[j as int]),
                seq![],
            );
            assert(seq![] + seq![] =~= Seq::<Seq<char>>::empty());
        }
        j = j + 1;
    }
}

/// Checks the package references of every project against its layer's package policy
/// (the first one for the layer): a package that the policy forbids, compared up to ASCII
/// case, is a violation; ignored and unmatched projects are skipped.
pub fn check_package_policies(
    projects: &[ProjectFile],
    config: &ArchitectureConfig,
    report: &mut CheckReport,
)
    ensures
        report_extended(
            *old(report),
            *final(report),
            package_findings(projects@, *config, projects@.len()),
            seq![],
        ),
{
    proof {
        lemma_report_extended_refl(*report);
    }
    let mut i: usize = 0;
    while i < projects.len()
        invariant
            i <= projects@.len(),
            report_extended(
                *old(report),
                *report,
                package_findings(projects@, *config, i as nat),
                seq![],
            ),
        decreases projects@.len() - i,
    {
        let project = &projects[i];
        let ghost before = *report;
        proof {
            lemma_resolved_index(project.name@, config.layers@, false);
        }
        if !is_ignored(project.name.as_str(), config.ignore_patterns.as_slice()) {
            if let Some(li) = resolve_layer_index(
                project.name.as_str(),
                config.layers.as_slice(),
                false,
            ) {
                let layer = &config.layers[li].name;
                if let Some(k) = find_policy(config.package_policies.as_slice(), layer.as_str()) {
                    check_project_packages(project, layer, &config.package_policies[k], report);
                }
            }
        }
        proof {
            if *report == before {
                lemma_report_extended_refl(before);
            }
            lemma_report_extended_trans(
                *old(report),
                before,
                *report,
                package_findings(projects@, *config, i as nat),
                seq![],
                project_package_findings(projects@[i as int], *config),
                seq![],
            );
            assert(seq![] + seq![] =~= Seq::<Seq<char>>::empty());
        }
        i = i + 1;
    }
}

/// The message of a forbidden `using` directive.
pub open spec fn source_message(from: Seq<char>, using: Seq<char>, to: Seq<char>) -> Seq<char> {
    "Source: layer '"@ + from + "' must not use '"@ + using + "' from layer '"@ + to + "'"@
}

/// The finding of directive `u` in header `h`, whose namespace `ns` is in layer `from`.
pub open spec fn using_finding(
    h: CsHeader,
    ns: Seq<char>,
    from: Seq<char>,
    config: ArchitectureConfig,
    u: UsingDirective,
) -> Seq<Finding> {
    match resolved_name(u.namespace@, config.layers@, true) {
        None => seq![],
        Some(to) => if from == to || rule_allows(config.dependency_rules@, from, to) {
            seq![]
        } else {
            seq![
                Finding {
                    violation: ViolationView {
                        message: source_message(from, u.namespace@, to),
                        path: h.path@,
                        span: (u.start_byte, (u.end_byte - u.start_byte) as usize),
                    },
                    key: EntryView { kind: "source"@, from: ns, to: u.namespace@ },
                },
            ]
        },
    }
}

/// The findings of the first `n` directives of `h`.
pub open spec fn using_findings(
    h: CsHeader,
    ns: Seq<char>,
    from: Seq<char>,
    config: ArchitectureConfig,
    n: nat,
) -> Seq<Finding>
    decreases n,
{
    if n == 0 {
        seq![]
    } else {
        using_findings(h, ns, from, config, (n - 1) as nat) + using_finding(
            h,
            ns,
            from,
            config,
            h.usings@[n - 1],
        )
    }
}

/// The findings of header `h`: none without a namespace or when no layer claims it.
pub open spec fn header_findings(h: CsHeader, config: ArchitectureConfig) -> Seq<Finding> {
    match h.namespace {
        None => seq![],
        Some(ns) => match resolved_name(ns@, config.layers@, true) {
            None => seq![],
            Some(from) => using_findings(h, ns@, from, config, h.usings@.len()),
        },
    }
}

/// The findings of the first `n` headers.
pub open spec fn source_findings(headers: Seq<CsHeader>, config: ArchitectureConfig, n: nat) -> Seq<
    Finding,
>
    decreases n,
{
    if n == 0 {
        seq![]
    } else {
        source_findings(headers, config, (n - 1) as nat) + header_findings(headers[n - 1], config)
    }
}

/// Whether some layer defines namespace patterns; without any, source scanning is skipped.
pub fn needs_source_scan(config: &ArchitectureConfig) -> (r: bool)
    ensures
        r == exists|i: int|
            0 <= i < config.layers@.len() && #[trigger] config.layers@[i].namespace_patterns@.len()
                > 0,
{
    let mut i: usize = 0;
    while i < config.layers.len()
        invariant
            i <= config.layers@.len(),
            forall|k: int| 0 <= k < i ==> #[trigger] config.layers@[k].namespace_patterns@.len() == 0,
        decreases config.layers@.len() - i,
    {
        if config.layers[i].namespace_patterns.len() > 0 {
            return true;
        }
        i = i + 1;
    }
    false
}

fn source_message_text(from: &str, using: &str, to: &str) -> (r: String)
    ensures
        r@ == source_message(from@, using@, to@),
{
    let mut s = owned("Source: layer '");
    append_str(&mut s, from);
    append_str(&mut s, "' must not use '");
    append_str(&mut s, using);
    append_str(&mut s, "' from layer '");
    append_str(&mut s, to);
    append_str(&mut s, "'");
    s
}

/// Checks one `using` directive of a header whose namespace `ns` is in layer `from`.
fn check_using(
    header: &CsHeader,
    ns: &String,
    from: &String,
    using: &UsingDirective,
    config: &ArchitectureConfig,
    report: &mut CheckReport,
)
    requires
        using.start_byte <= using.end_byte,
    ensures
        report_extended(
            *old(report),
            *final(report),
            using_finding(*header, ns@, from@, *config, *using),
            seq![],
        ),
{
    proof {
        lemma_resolved_index(using.namespace@, config.layers@, true);
    }
    let Some(ti) = resolve_layer_index(using.namespace.as_str(), config.layers.as_slice(), true)
        else {
        proof {
            lemma_report_extended_refl(*report);
        }
        return ;
    };
    let to = &config.layers[ti].name;
    if str_eq(from.as_str(), to.as_str()) || dependency_allowed(
        config.dependency_rules.as_slice(),
        from.as_str(),
        to.as_str(),
    ) {
        proof {
            lemma_report_extended_refl(*report);
        }
        return ;
    }
    let message = source_message_text(from.as_str(), using.namespace.as_str(), to.as_str());
    let key = BaselineEntry::new("source", ns.as_str(), using.namespace.as_str());
    let span = (using.start_byte, using.end_byte - using.start_byte);
    let v = Violation { message, path: header.path.clone(), span };
    push_finding(report, v, key);
}

/// Checks the `using` directives of scanned C# files: a file whose namespace a layer
/// claims must not import a namespace of another layer unless a rule allows it.
pub fn check_source_rules(headers: &[CsHeader], config: &ArchitectureConfig, report: &mut CheckReport)
    requires
        forall|i: int| 0 <= i < headers@.len() ==> ranges_ordered(#[trigger] headers@[i]),
    ensures
        report_extended(
            *old(report),
            *final(report),
            source_findings(headers@, *config, headers@.len()),
            seq![],
        ),
{
    proof {
        lemma_report_extended_refl(*report);
    }
    let mut i: usize = 0;
    while i < headers.len()
        invariant
            i <= headers@.len(),
            forall|k: int| 0 <= k < headers@.len() ==> ranges_ordered(#[trigger] headers@[k]),
            report_extended(
                *old(report),
                *report,
                source_findings(headers@, *config, i as nat),
                seq![],
            ),
        decreases headers@.len() - i,
    {
        let header = &headers[i];
        let ghost before = *report;
        proof {
            lemma_report_extended_refl(before);
        }
        if let Some(ns) = &header.namespace {
            proof {
                lemma_resolved_index(ns@, config.layers@, true);
            }
            if let Some(fi) = resolve_layer_index(ns.as_str(), config.layers.as_slice(), true) {
                let from = &config.layers[fi].name;
                let mut j: usize = 0;
                while j < header.usings.len()
                    invariant
                        j <= header.usings@.len(),
                        header.namespace == Some(*ns),
                        ranges_ordered(*header),
                        report_extended(
                            before,
                            *report,
                            using_findings(*header, ns@, from@, *config, j as nat),
                            seq![],
                        ),
                    decreases header.usings@.len() - j,
                {
                    let ghost mid = *report;
                    check_using(header, ns, from, &header.usings[j], config, report);
                    proof {
                        lemma_report_extended_trans(
                            before,
                            mid,
                            *report,
                            using_findings(*header, ns@, from@, *config, j as nat),
                            seq![],
                            using_finding(*header, ns@, from@, *config, header.usings@[j as int]),
                            seq![],
                        );
                        assert(seq![] + seq![] =~= Seq::<Seq<char>>::empty());
                    }
                    j = j + 1;
                }
            }
        }
        proof {
            lemma_report_extended_trans(
                *old(report),
                before,
                *report,
                source_findings(headers@, *config, i as nat),
                seq![],
                header_findings(headers@[i as int], *config),
                seq![],
            );
            assert(seq![] + seq![] =~= Seq::<Seq<char>>::empty());
        }
        i = i + 1;
    }
}

} // verus!
