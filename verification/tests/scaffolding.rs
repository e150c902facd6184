use ark::generator::{build_toml, infer_patterns, WizardAnswers};
use ark::project::{ProjectFile, ProjectRef};
use ark::scaffold::{
    compute_inter_layer_edges, is_test_project, scan, scan_from_components, suggest_layer_name,
    InterLayerEdge, LayerDef,
};
use ark::wizard::{default_allow, finish_answers, rules_from_answers, LayerWizard};

fn proj(name: &str, deps: Vec<&str>) -> ProjectFile {
    ProjectFile {
        path: format!("{name}.csproj"),
        name: name.to_string(),
        project_refs: deps
            .into_iter()
            .map(|r| ProjectRef {
                target: format!("..\\{r}\\{r}.csproj"),
                include_span: (0, 0),
                resolved: Some(format!("{r}.csproj")),
            })
            .collect(),
        package_refs: vec![],
    }
}

fn layer_def(name: &str, projects: &[&str]) -> LayerDef {
    LayerDef { name: name.to_string(), projects: projects.iter().map(|s| s.to_string()).collect() }
}

fn strings(v: &[&str]) -> Vec<String> {
    v.iter().map(|s| s.to_string()).collect()
}

// ── test projects ──────────────────────────────────────────────────────────

#[test]
fn test_projects_detected() {
    assert!(is_test_project("MyApp.Tests"));
    assert!(is_test_project("MyApp.Domain.Tests"));
    assert!(is_test_project("MyApp.Specs"));
    assert!(is_test_project("MyApp.IntegrationTests"));
    assert!(is_test_project("MyApp.UnitTests"));
}

#[test]
fn non_test_projects_not_detected() {
    assert!(!is_test_project("MyApp.Domain"));
    assert!(!is_test_project("MyApp.Api"));
    assert!(!is_test_project("MyApp.TestHelpers"));
}

// ── scan ───────────────────────────────────────────────────────────────────

#[test]
fn leaf_is_tier_0() {
    let result = scan(&[proj("MyApp.Domain", vec![])]);
    assert_eq!(result.tiers.len(), 1);
    assert!(result.tiers[0].contains(&"MyApp.Domain".to_string()));
}

#[test]
fn two_tier_chain() {
    let result = scan(&[proj("MyApp.Api", vec!["MyApp.Domain"]), proj("MyApp.Domain", vec![])]);
    assert_eq!(result.tiers.len(), 2);
    assert!(result.tiers[0].contains(&"MyApp.Domain".to_string()));
    assert!(result.tiers[1].contains(&"MyApp.Api".to_string()));
}

#[test]
fn test_projects_removed_from_tiers() {
    let result = scan(&[proj("MyApp.Domain", vec![]), proj("MyApp.Tests", vec!["MyApp.Domain"])]);
    assert_eq!(result.test_projects, vec!["MyApp.Tests"]);
    assert_eq!(result.tiers.len(), 1);
}

#[test]
fn isolated_project_flagged() {
    let result = scan(&[
        proj("MyApp.Api", vec!["MyApp.Domain"]),
        proj("MyApp.Domain", vec![]),
        proj("MyApp.BuildTools", vec![]),
    ]);
    assert!(result.isolated.contains(&"MyApp.BuildTools".to_string()));
    assert!(!result.isolated.contains(&"MyApp.Domain".to_string()));
}

#[test]
fn cycle_detected() {
    let result = scan(&[proj("A", vec!["B"]), proj("B", vec!["A"])]);
    assert_eq!(result.cycles.len(), 1);
    let cycle = &result.cycles[0];
    assert!(cycle.contains(&"A".to_string()));
    assert!(cycle.contains(&"B".to_string()));
}

#[test]
fn tiers_are_longest_paths_and_sorted() {
    let result = scan(&[
        proj("App.Web", vec!["App.Core", "App.Infra"]),
        proj("App.Infra", vec!["App.Core"]),
        proj("App.Core", vec![]),
        proj("App.Api", vec!["App.Core"]),
    ]);
    assert_eq!(
        result.tiers,
        vec![strings(&["App.Core"]), strings(&["App.Api", "App.Infra"]), strings(&["App.Web"])]
    );
    assert!(result.isolated.is_empty());
    assert!(result.cycles.is_empty());
}

#[test]
fn cycle_placed_above_its_dependencies() {
    let result = scan(&[proj("A", vec!["B", "Base"]), proj("B", vec!["A"]), proj("Base", vec![])]);
    assert_eq!(result.tiers, vec![strings(&["Base"]), strings(&["A", "B"])]);
}

#[test]
fn empty_solution_has_one_empty_tier() {
    let result = scan(&[]);
    assert_eq!(result.tiers, vec![Vec::<String>::new()]);
    assert!(result.isolated.is_empty());
    assert!(result.test_projects.is_empty());
}

#[test]
fn scan_from_given_components() {
    let projects = [proj("A", vec!["B"]), proj("B", vec!["A"]), proj("C", vec![])];
    let result = scan_from_components(&projects, &[vec![2], vec![1, 0]]);
    assert_eq!(result.cycles, vec![strings(&["B", "A"])]);
    assert_eq!(result.tiers, vec![strings(&["A", "B", "C"])]);
    assert_eq!(result.isolated, strings(&["C"]));
}

// ── layer names ────────────────────────────────────────────────────────────

#[test]
fn suggests_domain() {
    assert_eq!(suggest_layer_name(&["MyApp.Domain", "MyApp.Core"]), "Domain");
}

#[test]
fn suggests_presentation() {
    assert_eq!(suggest_layer_name(&["MyApp.Api"]), "Presentation");
}

#[test]
fn fallback_layer() {
    assert_eq!(suggest_layer_name(&["MyApp.Weird"]), "Layer");
}

#[test]
fn tie_goes_to_later_kind() {
    assert_eq!(suggest_layer_name(&["X.Domain", "X.Infrastructure"]), "Infrastructure");
    assert_eq!(suggest_layer_name(&["X.Services", "X.UseCases", "X.Api"]), "Application");
}

// ── inter-layer edges ──────────────────────────────────────────────────────

#[test]
fn inter_layer_edges_counted() {
    let projects = vec![proj("MyApp.Api", vec!["MyApp.Domain"]), proj("MyApp.Domain", vec![])];
    let layers = vec![layer_def("Domain", &["MyApp.Domain"]), layer_def("Presentation", &["MyApp.Api"])];
    let edges = compute_inter_layer_edges(&layers, &projects);
    assert_eq!(edges.len(), 1);
    assert_eq!(edges[0].from, "Presentation");
    assert_eq!(edges[0].to, "Domain");
    assert_eq!(edges[0].ref_count, 1);
    assert!(!edges[0].unusual);
}

#[test]
fn unusual_edge_flagged() {
    let projects = vec![proj("MyApp.Domain", vec!["MyApp.Api"]), proj("MyApp.Api", vec![])];
    let layers = vec![layer_def("Domain", &["MyApp.Domain"]), layer_def("Presentation", &["MyApp.Api"])];
    let edges = compute_inter_layer_edges(&layers, &projects);
    assert_eq!(edges.len(), 1);
    assert!(edges[0].unusual);
}

#[test]
fn same_layer_refs_excluded() {
    let projects = vec![proj("MyApp.Domain", vec!["MyApp.Core"]), proj("MyApp.Core", vec![])];
    let layers = vec![layer_def("Domain", &["MyApp.Domain", "MyApp.Core"])];
    assert!(compute_inter_layer_edges(&layers, &projects).is_empty());
}

#[test]
fn edges_sorted_by_names_and_counted() {
    let projects = vec![
        proj("W.Web", vec!["W.Domain", "W.App"]),
        proj("W.Api", vec!["W.Domain", "W.App", "Outside"]),
        proj("W.App", vec!["W.Domain"]),
    ];
    let layers = vec![
        layer_def("Domain", &["W.Domain"]),
        layer_def("App", &["W.App"]),
        layer_def("Presentation", &["W.Web", "W.Api"]),
    ];
    let edges = compute_inter_layer_edges(&layers, &projects);
    let got: Vec<(String, String, usize, bool)> =
        edges.iter().map(|e| (e.from.clone(), e.to.clone(), e.ref_count, e.unusual)).collect();
    assert_eq!(
        got,
        vec![
            ("App".to_string(), "Domain".to_string(), 1, false),
            ("Presentation".to_string(), "App".to_string(), 2, false),
            ("Presentation".to_string(), "Domain".to_string(), 2, false),
        ]
    );
}

// ── generator ──────────────────────────────────────────────────────────────

#[test]
fn infers_glob_from_suffix() {
    let patterns = infer_patterns(&["MyApp.Domain".into(), "OtherApp.Domain".into()]);
    assert_eq!(patterns, vec!["*.Domain"]);
}

#[test]
fn multiple_suffixes_multiple_patterns() {
    let patterns = infer_patterns(&["MyApp.Domain".into(), "MyApp.Core".into()]);
    assert!(patterns.contains(&"*.Domain".to_string()));
    assert!(patterns.contains(&"*.Core".to_string()));
}

#[test]
fn no_dot_uses_exact_name() {
    let patterns = infer_patterns(&["Shared".into()]);
    assert_eq!(patterns, vec!["Shared"]);
}

#[test]
fn build_toml_contains_expected_sections() {
    let answers = WizardAnswers {
        layers: vec![layer_def("Domain", &["MyApp.Domain"]), layer_def("Presentation", &["MyApp.Api"])],
        rules: vec![("Presentation".into(), "Domain".into(), true)],
        ignore_patterns: vec!["*.Tests".into()],
        package_policies: vec![],
    };
    let toml = build_toml(&answers);
    assert!(toml.contains("name = \"Domain\""));
    assert!(toml.contains("name = \"Presentation\""));
    assert!(toml.contains("allowed = true"));
    assert!(toml.contains("*.Tests"));
}

#[test]
fn toml_text_exact() {
    let answers = WizardAnswers {
        layers: vec![layer_def("Domain", &["A.Domain", "B.Domain", "Shared"])],
        rules: vec![("Api".into(), "Domain".into(), false)],
        ignore_patterns: vec!["*.Tests".into(), "*.Specs".into()],
        package_policies: vec![("Domain".into(), "EF".into())],
    };
    let expected = "# Generated by `ark init`\n\nlayers = [\n  { name = \"Domain\", patterns = [\"*.Domain\", \"Shared\"] },\n]\n\n# Any dependency not listed here is forbidden by default.\ndependency_rules = [\n  { from = \"Api\", to = \"Domain\", allowed = false },\n]\n\npackage_policies = [\n  { layer = \"Domain\", forbidden = [\"EF\"] },\n]\n\nignore_patterns = [\"*.Tests\", \"*.Specs\"]\n";
    assert_eq!(build_toml(&answers), expected);
}

// ── wizard decisions ───────────────────────────────────────────────────────

#[test]
fn tiers_become_layers_in_order() {
    let mut w = LayerWizard::new();
    assert!(w.move_question().starts_with("Move any projects out of this tier?"));
    w.confirm_tier(&strings(&["A.Domain"]), "Domain".into(), &[], &[]);
    assert_eq!(w.move_question(), "Move any projects to an already-confirmed layer below?");
    w.confirm_tier(&strings(&["A.Api", "A.Web"]), "Presentation".into(), &[], &[]);
    assert_eq!(w.layer_names(), strings(&["Domain", "Presentation"]));
    assert_eq!(w.confirmed[1].projects, strings(&["A.Api", "A.Web"]));
    assert!(w.pending.is_empty());
}

#[test]
fn moves_from_first_tier_wait_until_the_end() {
    let mut w = LayerWizard::new();
    w.confirm_tier(&strings(&["A.Domain", "A.Tools"]), "Domain".into(), &[1], &[]);
    assert_eq!(w.confirmed[0].projects, strings(&["A.Domain"]));
    assert_eq!(w.pending, strings(&["A.Tools"]));
    w.confirm_tier(&strings(&["A.Api"]), "Presentation".into(), &[], &[]);
    w.assign_pending(&[1]);
    assert_eq!(w.confirmed[1].projects, strings(&["A.Api", "A.Tools"]));
    assert!(w.pending.is_empty());
}

#[test]
fn a_whole_run_places_each_project_once() {
    let mut w = LayerWizard::new();
    w.confirm_tier(&strings(&["A.Domain", "A.Tools"]), "Domain".into(), &[1], &[]);
    w.confirm_tier(&strings(&["A.App", "A.Shared"]), "Application".into(), &[1], &[0]);
    w.confirm_tier(&strings(&["A.Api"]), "Presentation".into(), &[], &[]);
    w.assign_isolated(&"A.Scripts".to_string(), 3);
    w.assign_isolated(&"A.Jobs".to_string(), 1);
    w.assign_pending(&[2]);
    let mut all: Vec<String> = w.confirmed.iter().flat_map(|l| l.projects.iter().cloned()).collect();
    all.sort();
    assert_eq!(all, strings(&["A.Api", "A.App", "A.Domain", "A.Jobs", "A.Shared", "A.Tools"]));
    assert_eq!(w.confirmed[0].projects, strings(&["A.Domain", "A.Shared"]));
    assert_eq!(w.confirmed[1].projects, strings(&["A.App", "A.Jobs"]));
    assert_eq!(w.confirmed[2].projects, strings(&["A.Api", "A.Tools"]));
    assert!(w.pending.is_empty());
}

#[test]
fn moves_to_a_confirmed_layer_below() {
    let mut w = LayerWizard::new();
    w.confirm_tier(&strings(&["A.Domain"]), "Domain".into(), &[], &[]);
    w.confirm_tier(&strings(&["A.App", "A.Shared", "A.Api"]), "Application".into(), &[1], &[0]);
    assert_eq!(w.confirmed[0].projects, strings(&["A.Domain", "A.Shared"]));
    assert_eq!(w.confirmed[1].projects, strings(&["A.App", "A.Api"]));
}

#[test]
fn isolated_projects_assigned_or_ignored() {
    let mut w = LayerWizard::new();
    w.confirm_tier(&strings(&["A.Domain"]), "Domain".into(), &[], &[]);
    assert_eq!(w.isolated_choices(), strings(&["Domain", "ignore"]));
    w.assign_isolated(&"A.Tools".to_string(), 0);
    w.assign_isolated(&"A.Scripts".to_string(), 1);
    assert_eq!(w.confirmed[0].projects, strings(&["A.Domain", "A.Tools"]));
    assert_eq!(w.confirmed.len(), 1);
}

#[test]
fn rules_follow_the_answers() {
    let edges = vec![
        InterLayerEdge { from: "Api".into(), to: "Domain".into(), ref_count: 2, unusual: false },
        InterLayerEdge { from: "Domain".into(), to: "Api".into(), ref_count: 1, unusual: true },
    ];
    assert!(default_allow(&edges[0]));
    assert!(!default_allow(&edges[1]));
    let rules = rules_from_answers(&edges, &[true, false]);
    assert_eq!(
        rules,
        vec![("Api".to_string(), "Domain".to_string(), true), ("Domain".to_string(), "Api".to_string(), false)]
    );
}

#[test]
fn finish_answers_take_tests_and_policies() {
    let layers = vec![layer_def("Domain", &["A.Domain"]), layer_def("Api", &["A.Api"])];
    let tests = strings(&["A.Tests", "A.Specs"]);
    let picks = vec![(0, "Microsoft.EntityFrameworkCore".to_string()), (1, "Dapper".to_string())];
    let (ignore, policies) = finish_answers(&tests, true, &layers, &picks);
    assert_eq!(ignore, strings(&["A.Tests", "A.Specs"]));
    assert_eq!(
        policies,
        vec![
            ("Domain".to_string(), "Microsoft.EntityFrameworkCore".to_string()),
            ("Api".to_string(), "Dapper".to_string()),
        ]
    );
}

#[test]
fn finish_answers_without_tests_or_picks() {
    let layers = vec![layer_def("Domain", &["A.Domain"])];
    let tests = strings(&["A.Tests"]);
    let (ignore, policies) = finish_answers(&tests, false, &layers, &[]);
    assert!(ignore.is_empty());
    assert!(policies.is_empty());
    let (ignore, _) = finish_answers(&[], true, &layers, &[]);
    assert!(ignore.is_empty());
}
