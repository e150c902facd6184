use ark::baseline::{apply_baseline, BaselineEntry};
use ark::check::{
    check_dependency_rules, check_package_policies, check_source_rules, dependency_allowed,
    dependency_name, needs_source_scan,
};
use ark::config::{ArchitectureConfig, DependencyRule, Layer, PackagePolicy};
use ark::explain::describe_project;
use ark::project::{PackageRef, ProjectFile, ProjectRef};
use ark::report::{CheckReport, Violation};
use ark::rules::{any_pattern_matches, is_ignored, resolve_layer, resolve_layer_by_namespace};
use ark::scanner::scan_source;

fn make_config(
    layers: &[(&str, &[&str])],
    rules: &[(&str, &str, bool)],
    policies: &[(&str, &[&str])],
) -> ArchitectureConfig {
    ArchitectureConfig {
        layers: layers
            .iter()
            .map(|(name, pats)| Layer {
                name: name.to_string(),
                patterns: pats.iter().map(|s| s.to_string()).collect(),
                namespace_patterns: vec![],
            })
            .collect(),
        dependency_rules: rules
            .iter()
            .map(|(from, to, allowed)| DependencyRule {
                from: from.to_string(),
                to: to.to_string(),
                allowed: *allowed,
            })
            .collect(),
        package_policies: policies
            .iter()
            .map(|(layer, pkgs)| PackagePolicy {
                layer: layer.to_string(),
                forbidden: pkgs.iter().map(|s| s.to_string()).collect(),
            })
            .collect(),
        ignore_patterns: vec![],
    }
}

fn make_ns_config(
    layers: &[(&str, &[&str], &[&str])],
    rules: &[(&str, &str, bool)],
) -> ArchitectureConfig {
    ArchitectureConfig {
        layers: layers
            .iter()
            .map(|(name, pats, ns_pats)| Layer {
                name: name.to_string(),
                patterns: pats.iter().map(|s| s.to_string()).collect(),
                namespace_patterns: ns_pats.iter().map(|s| s.to_string()).collect(),
            })
            .collect(),
        dependency_rules: rules
            .iter()
            .map(|(from, to, allowed)| DependencyRule {
                from: from.to_string(),
                to: to.to_string(),
                allowed: *allowed,
            })
            .collect(),
        package_policies: vec![],
        ignore_patterns: vec![],
    }
}

fn make_project(name: &str, refs: &[&str], packages: &[(&str, &str)]) -> ProjectFile {
    ProjectFile {
        path: format!("{name}.csproj"),
        name: name.to_string(),
        project_refs: refs
            .iter()
            .map(|r| ProjectRef { target: r.to_string(), include_span: (7, r.len()), resolved: None })
            .collect(),
        package_refs: packages
            .iter()
            .map(|(n, v)| PackageRef { name: n.to_string(), name_span: (11, n.len()), version: v.to_string() })
            .collect(),
    }
}

fn layer(name: &str, patterns: &[&str]) -> Layer {
    Layer {
        name: name.to_string(),
        patterns: patterns.iter().map(|s| s.to_string()).collect(),
        namespace_patterns: vec![],
    }
}

fn entry(kind: &str, from: &str, to: &str) -> BaselineEntry {
    BaselineEntry { kind: kind.to_string(), from: from.to_string(), to: to.to_string() }
}

fn make_violation() -> Violation {
    Violation {
        message: "test".to_string(),
        path: "test.csproj".to_string(),
        span: (0, 1),
    }
}

fn run_source_check(file: &str, src: &str, config: &ArchitectureConfig) -> CheckReport {
    let mut report = CheckReport::new();
    if needs_source_scan(config) {
        let header = scan_source(file, src.as_bytes()).unwrap();
        check_source_rules(&[header], config, &mut report);
    }
    report
}

// ── resolve_layer ──────────────────────────────────────────────────────────

#[test]
fn resolve_layer_exact_pattern() {
    let layers = vec![Layer {
        name: "Api".to_string(),
        patterns: vec!["MyApp.Api".to_string()],
        namespace_patterns: vec![],
    }];
    assert_eq!(resolve_layer("MyApp.Api", &layers).unwrap().name, "Api");
}

#[test]
fn resolve_layer_glob_wildcard() {
    let layers = vec![Layer {
        name: "Domain".to_string(),
        patterns: vec!["*.Domain".to_string()],
        namespace_patterns: vec![],
    }];
    assert!(resolve_layer("MyApp.Domain", &layers).is_some());
    assert!(resolve_layer("OtherApp.Domain", &layers).is_some());
    assert!(resolve_layer("MyApp.Api", &layers).is_none());
}

#[test]
fn resolve_layer_returns_none_when_unmatched() {
    let layers = vec![Layer {
        name: "Api".to_string(),
        patterns: vec!["*.Api".to_string()],
        namespace_patterns: vec![],
    }];
    assert!(resolve_layer("MyApp.Infrastructure", &layers).is_none());
}

#[test]
fn resolve_layer_returns_first_matching_layer() {
    let layers = vec![
        Layer { name: "First".to_string(), patterns: vec!["*.Shared".to_string()], namespace_patterns: vec![] },
        Layer { name: "Second".to_string(), patterns: vec!["*.Shared".to_string()], namespace_patterns: vec![] },
    ];
    assert_eq!(resolve_layer("MyApp.Shared", &layers).unwrap().name, "First");
}

#[test]
fn resolve_layer_glob() {
    let layers = vec![layer("Domain", &["*.Domain"])];
    assert_eq!(resolve_layer("MyApp.Domain", &layers).unwrap().name, "Domain");
    assert!(resolve_layer("MyApp.Api", &layers).is_none());
}

#[test]
fn resolve_layer_by_namespace_wildcard() {
    let layers = vec![Layer {
        name: "Domain".to_string(),
        patterns: vec![],
        namespace_patterns: vec!["MyApp.Domain.*".to_string()],
    }];
    assert!(resolve_layer_by_namespace("MyApp.Domain.Entities", &layers).is_some());
    assert!(resolve_layer_by_namespace("MyApp.Application.Foo", &layers).is_none());
}

#[test]
fn resolve_ns_matches_wildcard_pattern() {
    let layers = vec![Layer {
        name: "Domain".to_string(),
        patterns: vec![],
        namespace_patterns: vec!["MyApp.Domain.*".to_string()],
    }];
    assert!(resolve_layer_by_namespace("MyApp.Domain.Entities", &layers).is_some());
    assert!(resolve_layer_by_namespace("MyApp.Application.Services", &layers).is_none());
}

#[test]
fn resolve_ns_matches_deep_namespace() {
    let layers = vec![Layer {
        name: "Domain".to_string(),
        patterns: vec![],
        namespace_patterns: vec!["MyApp.Domain.*".to_string()],
    }];
    assert!(resolve_layer_by_namespace("MyApp.Domain.Services.Commands", &layers).is_some());
}

#[test]
fn namespace_patterns_do_not_place_projects() {
    let layers = vec![Layer {
        name: "Domain".to_string(),
        patterns: vec![],
        namespace_patterns: vec!["*".to_string()],
    }];
    assert!(resolve_layer("MyApp.Domain", &layers).is_none());
    assert!(resolve_layer_by_namespace("MyApp.Domain", &layers).is_some());
}

#[test]
fn malformed_pattern_matches_nothing() {
    let layers = vec![layer("Broken", &["[unclosed"]), layer("Any", &["*"])];
    assert_eq!(resolve_layer("[unclosed", &layers).unwrap().name, "Any");
}

// ── is_ignored ─────────────────────────────────────────────────────────────

#[test]
fn is_ignored_matches_glob() {
    let patterns = vec!["*.Tests".to_string(), "*.Specs".to_string()];
    assert!(is_ignored("MyApp.Tests", &patterns));
    assert!(is_ignored("MyApp.Specs", &patterns));
    assert!(!is_ignored("MyApp.Domain", &patterns));
}

#[test]
fn is_ignored_empty_patterns_never_ignores() {
    assert!(!is_ignored("MyApp.Domain", &[]));
}

// ── dependency rules ───────────────────────────────────────────────────────

#[test]
fn allowed_dependency_no_violation() {
    let config = make_config(
        &[("Presentation", &["*.Api"]), ("Domain", &["*.Domain"])],
        &[("Presentation", "Domain", true)],
        &[],
    );
    let projects = [make_project("MyApp.Api", &["MyApp.Domain"], &[])];
    let mut report = CheckReport::new();
    check_dependency_rules(&projects, &config, &mut report);
    assert!(report.violations.is_empty());
}

#[test]
fn forbidden_dependency_produces_violation() {
    let config = make_config(
        &[("Domain", &["*.Domain"]), ("Infrastructure", &["*.Infrastructure"])],
        &[("Domain", "Infrastructure", false)],
        &[],
    );
    let projects = [make_project("MyApp.Domain", &["MyApp.Infrastructure"], &[])];
    let mut report = CheckReport::new();
    check_dependency_rules(&projects, &config, &mut report);
    assert_eq!(report.violations.len(), 1);
    assert!(report.violations[0].message.contains("Domain"));
    assert!(report.violations[0].message.contains("Infrastructure"));
}

#[test]
fn no_matching_rule_defaults_to_forbidden() {
    let config = make_config(
        &[("Presentation", &["*.Api"]), ("Domain", &["*.Domain"])],
        &[],
        &[],
    );
    let projects = [make_project("MyApp.Api", &["MyApp.Domain"], &[])];
    let mut report = CheckReport::new();
    check_dependency_rules(&projects, &config, &mut report);
    assert_eq!(report.violations.len(), 1);
}

#[test]
fn unmatched_project_adds_warning_not_violation() {
    let config = make_config(&[("Domain", &["*.Domain"])], &[], &[]);
    let projects = [make_project("MyApp.Utilities", &[], &[])];
    let mut report = CheckReport::new();
    check_dependency_rules(&projects, &config, &mut report);
    assert!(report.violations.is_empty());
    assert_eq!(report.warnings.len(), 1);
    assert!(report.warnings[0].contains("MyApp.Utilities"));
}

#[test]
fn multiple_forbidden_refs_all_reported() {
    let config = make_config(
        &[("Domain", &["*.Domain"]), ("Infrastructure", &["*.Infrastructure"])],
        &[("Domain", "Infrastructure", false)],
        &[],
    );
    let projects = [make_project(
        "MyApp.Domain",
        &["MyApp.Infrastructure", "Other.Infrastructure"],
        &[],
    )];
    let mut report = CheckReport::new();
    check_dependency_rules(&projects, &config, &mut report);
    assert_eq!(report.violations.len(), 2);
}

#[test]
fn dep_to_unmatched_layer_skipped() {
    let config = make_config(&[("Api", &["*.Api"])], &[], &[]);
    let projects = [make_project("MyApp.Api", &["Some.ExternalLib"], &[])];
    let mut report = CheckReport::new();
    check_dependency_rules(&projects, &config, &mut report);
    assert!(report.violations.is_empty());
    assert!(report.warnings.is_empty());
}

#[test]
fn intra_layer_dependency_never_a_violation() {
    let config = make_config(&[("Domain", &["*.Domain", "*.Domain.*"])], &[], &[]);
    let projects = [make_project("MyCompany.Domain", &["MyCompany.Domain.Shared"], &[])];
    let mut report = CheckReport::new();
    check_dependency_rules(&projects, &config, &mut report);
    assert!(report.violations.is_empty(), "intra-layer ref should not be a violation");
}

#[test]
fn ignored_project_skipped_entirely() {
    let mut config = make_config(&[("Domain", &["*.Domain"])], &[], &[]);
    config.ignore_patterns = vec!["*.Tests".to_string()];
    let projects = [make_project("MyApp.Tests", &["MyApp.Domain"], &[])];
    let mut report = CheckReport::new();
    check_dependency_rules(&projects, &config, &mut report);
    assert!(report.violations.is_empty());
    assert!(report.warnings.is_empty());
}

#[test]
fn forbidden_reference_message_and_key() {
    let config = make_config(
        &[("Domain", &["*.Domain"]), ("Infrastructure", &["*.Infrastructure"])],
        &[],
        &[],
    );
    let projects = [make_project("MyApp.Domain", &["MyApp.Infrastructure"], &[])];
    let mut report = CheckReport::new();
    check_dependency_rules(&projects, &config, &mut report);
    assert_eq!(
        report.violations[0].message,
        "Layer 'Domain' (MyApp.Domain) must not depend on layer 'Infrastructure' (MyApp.Infrastructure)"
    );
    assert_eq!(report.violations[0].path, "MyApp.Domain.csproj");
    assert_eq!(report.violations[0].span, (7, 20));
    assert_eq!(report.violation_keys.len(), 1);
    assert_eq!(report.violation_keys[0].kind, "project_ref");
    assert_eq!(report.violation_keys[0].from, "MyApp.Domain");
    assert_eq!(report.violation_keys[0].to, "MyApp.Infrastructure");
}

#[test]
fn first_rule_for_pair_decides() {
    let config = make_config(
        &[("Presentation", &["*.Api"]), ("Domain", &["*.Domain"])],
        &[("Presentation", "Domain", true), ("Presentation", "Domain", false)],
        &[],
    );
    let projects = [make_project("MyApp.Api", &["MyApp.Domain"], &[])];
    let mut report = CheckReport::new();
    check_dependency_rules(&projects, &config, &mut report);
    assert!(report.violations.is_empty());
    assert!(dependency_allowed(&config.dependency_rules, "Presentation", "Domain"));
    assert!(!dependency_allowed(&config.dependency_rules, "Domain", "Presentation"));
}

#[test]
fn resolved_reference_named_by_its_file_stem() {
    let r = ProjectRef {
        target: "..\\Other\\Other.csproj".to_string(),
        include_span: (0, 0),
        resolved: Some("/src/MyApp.Domain/MyApp.Domain.csproj".to_string()),
    };
    assert_eq!(dependency_name(&r), "MyApp.Domain");
    let unresolved = ProjectRef { target: "Raw.Include".to_string(), include_span: (0, 0), resolved: None };
    assert_eq!(dependency_name(&unresolved), "Raw.Include");
}

// ── package policies ───────────────────────────────────────────────────────

#[test]
fn forbidden_package_produces_violation() {
    let config = make_config(
        &[("Domain", &["*.Domain"])],
        &[],
        &[("Domain", &["Microsoft.EntityFrameworkCore"])],
    );
    let projects = [make_project("MyApp.Domain", &[], &[("Microsoft.EntityFrameworkCore", "7.0.0")])];
    let mut report = CheckReport::new();
    check_package_policies(&projects, &config, &mut report);
    assert_eq!(report.violations.len(), 1);
    assert!(report.violations[0].message.contains("Microsoft.EntityFrameworkCore"));
    assert!(report.violations[0].message.contains("Domain"));
}

#[test]
fn allowed_package_no_violation() {
    let config = make_config(
        &[("Domain", &["*.Domain"])],
        &[],
        &[("Domain", &["Microsoft.EntityFrameworkCore"])],
    );
    let projects = [make_project("MyApp.Domain", &[], &[("FluentValidation", "11.0.0")])];
    let mut report = CheckReport::new();
    check_package_policies(&projects, &config, &mut report);
    assert!(report.violations.is_empty());
}

#[test]
fn package_policy_match_is_case_insensitive() {
    let config = make_config(
        &[("Domain", &["*.Domain"])],
        &[],
        &[("Domain", &["microsoft.entityframeworkcore"])],
    );
    let projects = [make_project("MyApp.Domain", &[], &[("Microsoft.EntityFrameworkCore", "7.0.0")])];
    let mut report = CheckReport::new();
    check_package_policies(&projects, &config, &mut report);
    assert_eq!(report.violations.len(), 1);
}

#[test]
fn no_policy_for_layer_allows_any_package() {
    let config = make_config(&[("Domain", &["*.Domain"])], &[], &[]);
    let projects = [make_project("MyApp.Domain", &[], &[("Anything", "1.0.0")])];
    let mut report = CheckReport::new();
    check_package_policies(&projects, &config, &mut report);
    assert!(report.violations.is_empty());
}

#[test]
fn ignored_project_skipped_in_package_policies() {
    let mut config = make_config(
        &[("Domain", &["*.Domain"])],
        &[],
        &[("Domain", &["Microsoft.EntityFrameworkCore"])],
    );
    config.ignore_patterns = vec!["*.Tests".to_string()];
    let projects = [make_project("MyApp.Tests", &[], &[("Microsoft.EntityFrameworkCore", "7.0.0")])];
    let mut report = CheckReport::new();
    check_package_policies(&projects, &config, &mut report);
    assert!(report.violations.is_empty());
}

#[test]
fn forbidden_package_message_and_key() {
    let config = make_config(&[("Domain", &["*.Domain"])], &[], &[("Domain", &["Serilog"])]);
    let projects = [make_project("MyApp.Domain", &[], &[("SERILOG", "3.0.1")])];
    let mut report = CheckReport::new();
    check_package_policies(&projects, &config, &mut report);
    assert_eq!(report.violations[0].message, "Package 'SERILOG' is forbidden in layer 'Domain'");
    assert_eq!(report.violations[0].span, (11, 7));
    assert_eq!(report.violation_keys[0].kind, "package");
    assert_eq!(report.violation_keys[0].from, "MyApp.Domain");
    assert_eq!(report.violation_keys[0].to, "SERILOG");
}

// ── source rules ───────────────────────────────────────────────────────────

#[test]
fn source_forbidden_using_produces_violation() {
    let config = make_ns_config(
        &[
            ("Domain", &["*.Domain"], &["MyApp.Domain.*"]),
            ("Infrastructure", &["*.Infrastructure"], &["MyApp.Infrastructure.*"]),
        ],
        &[("Domain", "Infrastructure", false)],
    );
    let report = run_source_check(
        "OrderService.cs",
        "using MyApp.Infrastructure.Db;\nnamespace MyApp.Domain.Services;\npublic class X {}",
        &config,
    );
    assert_eq!(report.violations.len(), 1);
    assert!(report.violations[0].message.contains("Infrastructure"));
}

#[test]
fn source_allowed_using_no_violation() {
    let config = make_ns_config(
        &[
            ("Application", &["*.Application"], &["MyApp.Application.*"]),
            ("Domain", &["*.Domain"], &["MyApp.Domain.*"]),
        ],
        &[("Application", "Domain", true)],
    );
    let report = run_source_check(
        "Handler.cs",
        "using MyApp.Domain.Entities;\nnamespace MyApp.Application.Handlers;\npublic class X {}",
        &config,
    );
    assert!(report.violations.is_empty());
}

#[test]
fn source_scan_skipped_when_no_namespace_patterns() {
    let config = make_ns_config(&[("Domain", &["*.Domain"], &[])], &[]);
    assert!(!needs_source_scan(&config));
    let mut report = CheckReport::new();
    check_source_rules(&[], &config, &mut report);
    assert!(report.violations.is_empty());
}

#[test]
fn intra_layer_using_no_violation() {
    let config = make_ns_config(&[("Domain", &["*.Domain"], &["MyApp.Domain.*"])], &[]);
    let report = run_source_check(
        "Svc.cs",
        "using MyApp.Domain.ValueObjects;\nnamespace MyApp.Domain.Services;\npublic class X {}",
        &config,
    );
    assert!(report.violations.is_empty());
}

#[test]
fn forbidden_using_message_span_and_key() {
    let config = make_ns_config(
        &[
            ("Domain", &["*.Domain"], &["MyApp.Domain.*"]),
            ("Infrastructure", &["*.Infrastructure"], &["MyApp.Infrastructure.*"]),
        ],
        &[],
    );
    let src = "using MyApp.Infrastructure.Db;\nnamespace MyApp.Domain.Services;\npublic class X {}";
    let report = run_source_check("OrderService.cs", src, &config);
    assert_eq!(
        report.violations[0].message,
        "Source: layer 'Domain' must not use 'MyApp.Infrastructure.Db' from layer 'Infrastructure'"
    );
    assert_eq!(report.violations[0].span, (6, 23));
    assert_eq!(report.violation_keys[0].kind, "source");
    assert_eq!(report.violation_keys[0].from, "MyApp.Domain.Services");
    assert_eq!(report.violation_keys[0].to, "MyApp.Infrastructure.Db");
}

#[test]
fn using_span_is_the_directive_not_an_earlier_mention() {
    let config = make_ns_config(
        &[
            ("Domain", &["*.Domain"], &["MyApp.Domain.*"]),
            ("Infrastructure", &["*.Infrastructure"], &["MyApp.Infrastructure.*"]),
        ],
        &[],
    );
    let src = "// using MyApp.Infrastructure.Db\nusing MyApp.Infrastructure.Db;\nnamespace MyApp.Domain.Services;\npublic class X {}";
    let report = run_source_check("OrderService.cs", src, &config);
    assert_eq!(report.violations.len(), 1);
    let (start, len) = report.violations[0].span;
    assert_eq!((start, len), (39, 23));
    assert_eq!(&src[start..start + len], "MyApp.Infrastructure.Db");
}

// ── report ─────────────────────────────────────────────────────────────────

#[test]
fn new_report_is_clean() {
    let report = CheckReport::new();
    assert!(report.is_clean());
    assert!(report.violations.is_empty());
    assert!(report.warnings.is_empty());
}

#[test]
fn report_with_violation_is_not_clean() {
    let mut report = CheckReport::new();
    report.violations.push(make_violation());
    assert!(!report.is_clean());
    assert_eq!(report.violations.len(), 1);
}

#[test]
fn warnings_do_not_affect_is_clean() {
    let mut report = CheckReport::new();
    report.warnings.push("unmatched project".to_string());
    assert!(report.is_clean());
}

#[test]
fn strict_mode_fails_on_warnings() {
    let mut report = CheckReport::new();
    report.warnings.push("unmatched project".to_string());
    assert!(!report.should_fail(false));
    assert!(report.should_fail(true));
    report.violations.push(make_violation());
    assert!(report.should_fail(false));
}

// ── baseline ───────────────────────────────────────────────────────────────

#[test]
fn filters_matching_violations() {
    let baseline = vec![entry("project_ref", "A", "B")];
    let violations = vec![make_violation(), make_violation()];
    let keys = vec![entry("project_ref", "A", "B"), entry("project_ref", "C", "D")];
    let mut warnings = vec![];
    let (remaining, _) = apply_baseline(violations, keys, &baseline, &mut warnings);
    assert_eq!(remaining.len(), 1);
    assert!(warnings.is_empty());
}

#[test]
fn warns_on_stale_entry() {
    let baseline = vec![entry("project_ref", "A", "B")];
    let mut warnings = vec![];
    let (remaining, _) = apply_baseline(vec![], vec![], &baseline, &mut warnings);
    assert!(remaining.is_empty());
    assert_eq!(warnings.len(), 1);
    assert!(warnings[0].contains("Stale"));
    assert_eq!(
        warnings[0],
        "Stale baseline entry (project_ref A → B) — violation no longer exists"
    );
}

#[test]
fn own_baseline_suppresses_every_violation() {
    let keys = vec![entry("project_ref", "A", "B"), entry("package", "A", "EF")];
    let baseline = vec![entry("project_ref", "A", "B"), entry("package", "A", "EF")];
    let mut warnings = vec!["earlier".to_string()];
    let (remaining, kept) =
        apply_baseline(vec![make_violation(), make_violation()], keys, &baseline, &mut warnings);
    assert!(remaining.is_empty());
    assert!(kept.is_empty());
    assert_eq!(warnings, vec!["earlier".to_string()]);
}

#[test]
fn new_violation_survives_baseline() {
    let baseline = vec![entry("project_ref", "A", "B")];
    let mut v2 = make_violation();
    v2.message = "new one".to_string();
    let keys = vec![entry("project_ref", "A", "B"), entry("source", "A.Ns", "B.Ns")];
    let mut warnings = vec![];
    let (remaining, kept) = apply_baseline(vec![make_violation(), v2], keys, &baseline, &mut warnings);
    assert_eq!(remaining.len(), 1);
    assert_eq!(remaining[0].message, "new one");
    assert_eq!(kept.len(), 1);
    assert_eq!(kept[0].kind, "source");
    assert!(warnings.is_empty());
}

// ── explain ────────────────────────────────────────────────────────────────

#[test]
fn unmatched_project_says_unmatched() {
    let config = make_config(&[("Domain", &["*.Domain"])], &[], &[]);
    let out = describe_project("MyApp.Unknown", &config, &[]);
    assert!(out.contains("unmatched"));
}

#[test]
fn matched_project_shows_layer() {
    let config = make_config(
        &[("Domain", &["*.Domain"]), ("Application", &["*.Application"])],
        &[("Application", "Domain", true)],
        &[],
    );
    let out = describe_project("MyApp.Domain", &config, &[]);
    assert!(out.contains("Domain"));
    assert!(out.contains("Application"));
    assert!(out.contains("allowed") || out.contains("forbidden"));
}

#[test]
fn ignored_project_says_ignored() {
    let mut config = make_config(&[("Domain", &["*.Domain"])], &[], &[]);
    config.ignore_patterns = vec!["*.Tests".to_string()];
    let out = describe_project("MyApp.Tests", &config, &[]);
    assert!(out.contains("ignored"));
}

#[test]
fn siblings_listed_when_present() {
    let config = make_config(&[("Domain", &["*.Domain"])], &[], &[]);
    let out = describe_project("MyApp.Domain", &config, &["MyApp.Domain", "MyApp.Core.Domain"]);
    assert!(out.contains("MyApp.Core.Domain"));
}

#[test]
fn explanation_matches_documented_layout() {
    let config = make_config(
        &[
            ("Domain", &["*.Domain", "*.Core"]),
            ("Application", &["*.Application"]),
            ("Infrastructure", &["*.Infrastructure"]),
            ("Presentation", &["*.Api"]),
        ],
        &[("Domain", "Infrastructure", false), ("Domain", "Presentation", false)],
        &[],
    );
    let out = describe_project("MyApp.Domain", &config, &["MyApp.Domain", "MyApp.Core"]);
    let expected = "Project: MyApp.Domain\nLayer:   Domain\n\nDependency rules:\n  → Application              forbidden  [default] \n  → Infrastructure           forbidden  [explicit]\n  → Presentation             forbidden  [explicit]\n\nOther projects in this layer:\n  MyApp.Core\n";
    assert_eq!(out, expected);
}

#[test]
fn star_prefix_matches_names_ending_with_the_rest() {
    let patterns = vec!["*.Domain".to_string()];
    assert!(any_pattern_matches("MyApp.Domain", &patterns));
    assert!(any_pattern_matches(".Domain", &patterns));
    assert!(!any_pattern_matches("MyApp.Domain.Tests", &patterns));
    assert!(!any_pattern_matches("MyApp.domain", &patterns));
    let literal = vec!["MyApp.Api".to_string()];
    assert!(any_pattern_matches("MyApp.Api", &literal));
    assert!(!any_pattern_matches("MyApp.Api2", &literal));
}
