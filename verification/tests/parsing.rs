use ark::project::{
    attr_value, is_project_path, read_references, PackageRef, ProjectError, ProjectFile, ProjectRef,
    XmlEvent, XmlTag,
};
use ark::scanner::{
    extract_using_directive, header_from_nodes, is_source_path, scan_source, using_name_of, TopNode,
    UsingDirective,
};

fn parse(name: &str, xml: &str) -> ProjectFile {
    let path = format!("/work/{name}/{name}.csproj");
    match ProjectFile::parse_content(&path, xml) {
        Ok(pf) => pf,
        Err(e) => panic!("parse failed: {e:?}"),
    }
}

fn ns(usings: &[UsingDirective]) -> Vec<&str> {
    usings.iter().map(|u| u.namespace.as_str()).collect()
}

// ── csproj ─────────────────────────────────────────────────────────────────

#[test]
fn name_extracted_from_file_stem() {
    let pf = parse("My.Cool.Project", "<Project/>");
    assert_eq!(pf.name, "My.Cool.Project");
}

#[test]
fn empty_csproj_has_no_refs() {
    let pf = parse("Empty", r#"<Project Sdk="Microsoft.NET.Sdk"></Project>"#);
    assert!(pf.project_refs.is_empty());
    assert!(pf.package_refs.is_empty());
}

#[test]
fn project_reference_self_closing_parsed() {
    let xml = r#"<Project Sdk="Microsoft.NET.Sdk">
  <ItemGroup>
    <ProjectReference Include="..\MyApp.Domain\MyApp.Domain.csproj" />
  </ItemGroup>
</Project>"#;
    let pf = parse("MyApp.Api", xml);
    assert_eq!(pf.project_refs.len(), 1);
    assert_eq!(pf.project_refs[0].target, r"..\MyApp.Domain\MyApp.Domain.csproj");
}

#[test]
fn package_references_parsed_with_version() {
    let xml = r#"<Project Sdk="Microsoft.NET.Sdk">
  <ItemGroup>
    <PackageReference Include="Newtonsoft.Json" Version="13.0.3" />
    <PackageReference Include="Serilog" Version="3.0.1" />
  </ItemGroup>
</Project>"#;
    let pf = parse("MyApp.Infrastructure", xml);
    assert_eq!(pf.package_refs.len(), 2);
    assert_eq!(pf.package_refs[0].name, "Newtonsoft.Json");
    assert_eq!(pf.package_refs[0].version, "13.0.3");
    assert_eq!(pf.package_refs[1].name, "Serilog");
    assert_eq!(pf.package_refs[1].version, "3.0.1");
}

#[test]
fn package_reference_missing_version_defaults_empty() {
    let xml = r#"<Project><ItemGroup><PackageReference Include="SomePkg" /></ItemGroup></Project>"#;
    let pf = parse("NoVersion", xml);
    assert_eq!(pf.package_refs[0].version, "");
}

#[test]
fn multiple_project_and_package_refs() {
    let xml = r#"<Project>
  <ItemGroup>
    <ProjectReference Include="..\A\A.csproj" />
    <ProjectReference Include="..\B\B.csproj" />
    <PackageReference Include="FluentValidation" Version="11.0.0" />
  </ItemGroup>
</Project>"#;
    let pf = parse("Multi", xml);
    assert_eq!(pf.project_refs.len(), 2);
    assert_eq!(pf.package_refs.len(), 1);
}

#[test]
fn reference_resolved_against_project_directory() {
    let pf = ProjectFile::parse_content(
        "/work/App/App.csproj",
        r#"<Project><ItemGroup><ProjectReference Include="../Lib/Lib.csproj"></ProjectReference></ItemGroup></Project>"#,
    )
    .unwrap();
    assert_eq!(pf.path, "/work/App/App.csproj");
    assert_eq!(pf.project_refs[0].resolved.as_deref(), Some("/work/App/../Lib/Lib.csproj"));
}

#[test]
fn malformed_xml_is_an_error() {
    let r = ProjectFile::parse_content("/work/Bad.csproj", "<Project><ItemGroup></Project>");
    assert!(matches!(r, Err(ProjectError::Xml(_))));
}

#[test]
fn path_without_stem_is_an_error() {
    let r = ProjectFile::parse_content("", "<Project/>");
    assert!(matches!(r, Err(ProjectError::NoFileStem)));
}

#[test]
fn attribute_lookup_by_key() {
    let tag = XmlTag {
        name: b"PackageReference".to_vec(),
        attributes: vec![
            None,
            Some((b"Include".to_vec(), b"Serilog".to_vec())),
            Some((b"Include".to_vec(), b"Second".to_vec())),
            Some((b"Version".to_vec(), vec![0xff])),
        ],
        raw: b"PackageReference Include=\"Serilog\" Include=\"Second\"".to_vec(),
        end: 0,
    };
    assert_eq!(attr_value(&tag, b"Include").as_deref(), Some("Serilog"));
    assert_eq!(attr_value(&tag, b"Version"), None);
    assert_eq!(attr_value(&tag, b"Missing"), None);
}

#[test]
fn project_paths_recognised_in_any_case() {
    assert!(is_project_path("src/Foo.csproj"));
    assert!(is_project_path("Big.CSPROJ"));
    assert!(!is_project_path("solution.sln"));
    assert!(!is_project_path("app.vbproj"));
    assert!(!is_project_path("csproj"));
}

// ── C# scanning ────────────────────────────────────────────────────────────

#[test]
fn extracts_namespace_and_usings() {
    let src = r#"
using System;
using System.Collections.Generic;
using MyApp.Domain.Entities;

namespace MyApp.Application.Services
{
    public class OrderService {}
}
"#;
    let h = scan_source("OrderService.cs", src.as_bytes()).unwrap();
    assert_eq!(h.namespace.as_deref(), Some("MyApp.Application.Services"));
    assert_eq!(ns(&h.usings), vec!["System", "System.Collections.Generic", "MyApp.Domain.Entities"]);
}

#[test]
fn file_scoped_namespace() {
    let src = r#"
using MyApp.Domain.Interfaces;

namespace MyApp.Infrastructure.Persistence;

public class OrderRepository {}
"#;
    let h = scan_source("Repo.cs", src.as_bytes()).unwrap();
    assert_eq!(h.namespace.as_deref(), Some("MyApp.Infrastructure.Persistence"));
    assert_eq!(ns(&h.usings), vec!["MyApp.Domain.Interfaces"]);
}

#[test]
fn no_namespace_still_collects_usings() {
    let h = scan_source("Script.cs", "using System;\npublic class Foo {}".as_bytes()).unwrap();
    assert!(h.namespace.is_none());
    assert_eq!(ns(&h.usings), vec!["System"]);
}

#[test]
fn skips_using_static() {
    let h = scan_source("Calc.cs", "using static System.Math;\nnamespace A;\npublic class X {}".as_bytes())
        .unwrap();
    assert!(h.usings.is_empty());
}

#[test]
fn skips_using_alias() {
    let h = scan_source(
        "Alias.cs",
        "using Col = System.Collections.Generic;\nnamespace A;\npublic class X {}".as_bytes(),
    )
    .unwrap();
    assert!(h.usings.is_empty());
}

#[test]
fn using_directive_has_correct_byte_range() {
    let src = "using MyApp.Domain.Entities;\nnamespace MyApp.Application;\npublic class X {}";
    let h = scan_source("Test.cs", src.as_bytes()).unwrap();
    assert_eq!(h.usings.len(), 1);
    let u = &h.usings[0];
    assert_eq!(u.namespace, "MyApp.Domain.Entities");
    assert_eq!(&src[u.start_byte..u.end_byte], "MyApp.Domain.Entities");
}

#[test]
fn header_keeps_its_path() {
    let h = scan_source("dir/File.cs", b"namespace N;").unwrap();
    assert_eq!(h.path, "dir/File.cs");
    assert_eq!(h.namespace.as_deref(), Some("N"));
}

#[test]
fn using_text_reduced_to_its_namespace() {
    assert_eq!(using_name_of("using System.Text;").as_deref(), Some("System.Text"));
    assert_eq!(using_name_of("using   Foo ;").as_deref(), Some("Foo"));
    assert_eq!(using_name_of("using static System.Math;"), None);
    assert_eq!(using_name_of("using A = B;"), None);
}

#[test]
fn directive_offsets_follow_node_start() {
    let raw = "using  MyApp.X;";
    let d = extract_using_directive(raw, raw.as_bytes(), 100).unwrap();
    assert_eq!(d.namespace, "MyApp.X");
    assert_eq!(d.start_byte, 107);
    assert_eq!(d.end_byte, 114);
    assert!(extract_using_directive("using static M;", b"using static M;", 0).is_none());
}

#[test]
fn source_paths_recognised_in_any_case() {
    assert!(is_source_path("A.cs"));
    assert!(is_source_path("dir/B.CS"));
    assert!(!is_source_path("C.txt"));
    assert!(!is_source_path("D.csx"));
}

fn tag(name: &str, attrs: &[(&str, &str)]) -> XmlTag {
    let mut raw = name.to_string();
    for (k, v) in attrs {
        raw.push_str(&format!(" {k}=\"{v}\""));
    }
    XmlTag {
        name: name.as_bytes().to_vec(),
        attributes: attrs
            .iter()
            .map(|(k, v)| Some((k.as_bytes().to_vec(), v.as_bytes().to_vec())))
            .collect(),
        raw: raw.into_bytes(),
        end: 0,
    }
}

#[test]
fn events_declare_references() {
    let mut refs: Vec<ProjectRef> = Vec::new();
    let mut pkgs: Vec<PackageRef> = Vec::new();
    let events = vec![
        XmlEvent::Start(tag("ItemGroup", &[])),
        XmlEvent::Empty(tag("ProjectReference", &[("Include", "../A/A.csproj")])),
        XmlEvent::Other,
        XmlEvent::Start(tag("PackageReference", &[("Version", "1.2"), ("Include", "Pkg")])),
        XmlEvent::Empty(tag("PackageReference", &[("Include", "Bare")])),
        XmlEvent::Empty(tag("ProjectReference", &[("Condition", "x")])),
        XmlEvent::Eof,
    ];
    for ev in &events {
        read_references("/src/App/App.csproj", 100, ev, &mut refs, &mut pkgs);
    }
    assert_eq!(refs.len(), 1);
    assert_eq!(refs[0].target, "../A/A.csproj");
    assert_eq!(refs[0].include_span, (126, 13));
    assert_eq!(pkgs[0].name_span, (140, 3));
    assert_eq!(refs[0].resolved.as_deref(), Some("/src/App/../A/A.csproj"));
    assert_eq!(pkgs.len(), 2);
    assert_eq!((pkgs[0].name.as_str(), pkgs[0].version.as_str()), ("Pkg", "1.2"));
    assert_eq!((pkgs[1].name.as_str(), pkgs[1].version.as_str()), ("Bare", ""));
}

fn node(kind: &str, start: usize, end: usize, declared: Option<&str>) -> TopNode {
    TopNode { kind: kind.to_string(), start_byte: start, end_byte: end, declared: declared.map(|d| d.to_string()) }
}

#[test]
fn header_from_given_nodes() {
    let src = "using A.B;\nusing static C;\nnamespace N.M;\nusing Late;";
    let nodes = vec![
        node("using_directive", 0, 10, None),
        node("comment", 10, 11, None),
        node("using_directive", 11, 26, None),
        node("file_scoped_namespace_declaration", 27, 41, Some("N.M")),
        node("using_directive", 42, 53, None),
    ];
    let h = header_from_nodes("F.cs", src.as_bytes(), &nodes);
    assert_eq!(h.path, "F.cs");
    assert_eq!(h.namespace.as_deref(), Some("N.M"));
    assert_eq!(h.usings.len(), 1);
    assert_eq!(h.usings[0].namespace, "A.B");
    assert_eq!((h.usings[0].start_byte, h.usings[0].end_byte), (6, 9));
}

#[test]
fn header_without_namespace_keeps_all_usings() {
    let src = "using X;using Y;";
    let nodes = vec![node("using_directive", 0, 8, None), node("using_directive", 8, 16, None), node("using_directive", 10, 99, None)];
    let h = header_from_nodes("G.cs", src.as_bytes(), &nodes);
    assert!(h.namespace.is_none());
    assert_eq!(ns(&h.usings), vec!["X", "Y"]);
}

// ── recorded spans ─────────────────────────────────────────────────────────

fn text_at(src: &str, span: (usize, usize)) -> &str {
    &src[span.0..span.0 + span.1]
}

#[test]
fn project_ref_span_points_to_include_value() {
    let xml = r#"<Project>
  <ItemGroup>
    <ProjectReference Include="..\MyApp.Domain\MyApp.Domain.csproj" />
  </ItemGroup>
</Project>"#;
    let pf = parse("MyApp.Api", xml);
    assert_eq!(text_at(xml, pf.project_refs[0].include_span), r"..\MyApp.Domain\MyApp.Domain.csproj");
}

#[test]
fn package_ref_span_points_to_name_value() {
    let xml = r#"<Project><ItemGroup><PackageReference Include="Newtonsoft.Json" Version="13.0.3" /></ItemGroup></Project>"#;
    let pf = parse("MyApp.Api", xml);
    assert_eq!(pf.package_refs[0].name_span, (47, 15));
    assert_eq!(text_at(xml, pf.package_refs[0].name_span), "Newtonsoft.Json");
}

#[test]
fn span_is_the_elements_own_attribute() {
    let xml = r#"<Project>
  <!-- Include="..\A\A.csproj" -->
  <ItemGroup Label="..\A\A.csproj">
    <ProjectReference Include="..\A\A.csproj"></ProjectReference>
    <ProjectReference Include='..\A\A.csproj'/>
  </ItemGroup>
</Project>"#;
    let pf = parse("App", xml);
    assert_eq!(pf.project_refs.len(), 2);
    let first = pf.project_refs[0].include_span;
    let second = pf.project_refs[1].include_span;
    assert_eq!(first.0, xml.find(r#"<ProjectReference Include=""#).unwrap() + 27);
    assert_eq!(second.0, xml.find("<ProjectReference Include='").unwrap() + 27);
    assert_eq!(text_at(xml, first), r"..\A\A.csproj");
    assert_eq!(text_at(xml, second), r"..\A\A.csproj");
}

#[test]
fn span_counts_the_byte_order_mark() {
    let xml = "\u{feff}<Project><ItemGroup><PackageReference Include=\"Serilog\"/></ItemGroup></Project>";
    let pf = parse("App", xml);
    assert_eq!(pf.package_refs[0].name, "Serilog");
    assert_eq!(text_at(xml, pf.package_refs[0].name_span), "Serilog");
}
