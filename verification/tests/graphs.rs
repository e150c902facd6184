use ark::graph::{sanitize_id, SolutionGraph};
use ark::project::{ProjectFile, ProjectRef};

fn proj(name: &str, refs: Vec<&str>) -> ProjectFile {
    ProjectFile {
        path: format!("{name}.csproj"),
        name: name.to_string(),
        project_refs: refs
            .into_iter()
            .map(|r| ProjectRef { target: format!("{r}.csproj"), include_span: (0, 0), resolved: None })
            .collect(),
        package_refs: vec![],
    }
}

#[test]
fn empty_input_builds_empty_graph() {
    let sg = SolutionGraph::build(&[]);
    assert_eq!(sg.graph.node_count(), 0);
    assert_eq!(sg.graph.edge_count(), 0);
}

#[test]
fn nodes_added_for_each_project() {
    let sg = SolutionGraph::build(&[proj("App.Api", vec![]), proj("App.Domain", vec![])]);
    assert_eq!(sg.graph.node_count(), 2);
    assert_eq!(sg.graph.edge_count(), 0);
}

#[test]
fn edge_added_for_project_reference() {
    let sg = SolutionGraph::build(&[proj("App.Api", vec!["App.Domain"]), proj("App.Domain", vec![])]);
    assert_eq!(sg.graph.edge_count(), 1);
}

#[test]
fn ref_to_unknown_project_creates_phantom_node() {
    let sg = SolutionGraph::build(&[proj("App.Api", vec!["External.Lib"])]);
    assert_eq!(sg.graph.node_count(), 2);
    assert_eq!(sg.graph.edge_count(), 1);
}

#[test]
fn to_mermaid_starts_with_header() {
    let sg = SolutionGraph::build(&[]);
    assert!(sg.to_mermaid().starts_with("graph TD\n"));
}

#[test]
fn to_mermaid_empty_graph_has_no_edges() {
    let sg = SolutionGraph::build(&[proj("App.Api", vec![])]);
    let m = sg.to_mermaid();
    assert!(!m.contains("-->"));
}

#[test]
fn to_mermaid_edge_uses_sanitized_ids() {
    let sg = SolutionGraph::build(&[proj("App.Api", vec!["App.Domain"]), proj("App.Domain", vec![])]);
    let m = sg.to_mermaid();
    assert!(m.contains("-->"));
    assert!(m.contains("App_Api"));
    assert!(m.contains("App_Domain"));
}

#[test]
fn to_dot_contains_digraph_keyword() {
    let sg = SolutionGraph::build(&[]);
    assert!(sg.to_dot().contains("digraph"));
}

#[test]
fn sanitize_replaces_dots_dashes_spaces() {
    assert_eq!(sanitize_id("My.App-Web Service"), "My_App_Web_Service");
}

#[test]
fn sanitize_leaves_plain_names_unchanged() {
    assert_eq!(sanitize_id("MyApp"), "MyApp");
}

#[test]
fn sanitizing_twice_changes_nothing() {
    let once = sanitize_id("a.b-c d");
    assert_eq!(sanitize_id(&once), once);
    assert!(!once.contains('.') && !once.contains('-') && !once.contains(' '));
}

#[test]
fn mermaid_lists_every_edge_in_order() {
    let sg = SolutionGraph::build(&[
        proj("App.Api", vec!["App.Domain", "App.Infra"]),
        proj("App.Infra", vec!["App.Domain"]),
        proj("App.Domain", vec![]),
    ]);
    assert_eq!(
        sg.to_mermaid(),
        "graph TD\n    App_Api --> App_Domain\n    App_Api --> App_Infra\n    App_Infra --> App_Domain\n"
    );
}

#[test]
fn duplicate_targets_share_one_node() {
    let sg = SolutionGraph::build(&[proj("A", vec!["Ext"]), proj("B", vec!["Ext"])]);
    assert_eq!(sg.graph.node_count(), 3);
    assert_eq!(sg.graph.edge_count(), 2);
    assert_eq!(sg.name_to_idx.len(), 3);
}

#[test]
fn render_picks_format() {
    let sg = SolutionGraph::build(&[proj("A", vec!["B"]), proj("B", vec![])]);
    assert_eq!(sg.render("dot"), sg.to_dot());
    assert_eq!(sg.render("mermaid"), sg.to_mermaid());
    assert_eq!(sg.render("anything"), sg.to_mermaid());
    assert!(sg.render("dot").starts_with("digraph {"));
}

#[test]
fn one_node_per_project_and_per_distinct_outside_target() {
    let sg = SolutionGraph::build(&[
        proj("App.Api", vec!["App.Domain", "Ext.Lib", "Ext.Other"]),
        proj("App.Web", vec!["Ext.Lib", "App.Api"]),
        proj("App.Domain", vec![]),
    ]);
    assert_eq!(sg.graph.node_count(), 3 + 2);
    assert_eq!(sg.graph.edge_count(), 5);
    for (name, idx) in &sg.name_to_idx {
        assert_eq!(&sg.graph[petgraph::graph::NodeIndex::new(*idx)], name);
    }
}
