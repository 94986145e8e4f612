use ggen_engine::config::{parse_lifecycle, LifecycleError};
use ggen_engine::lifecycle::{Action, Phase, Schedule};

const MAKE: &str = r#"
[project]
name = "advanced-rust-project"
depends_on = not read here

[lifecycle.init]
description = "Initialize the project"
command = "cargo init"

[lifecycle.setup]
command = "cargo fetch"

[lifecycle.generate]
depends_on = ["setup"]
templates = ["templates/rust-service.tmpl", "templates/api-endpoint.tmpl"]

[lifecycle.build]
depends_on = ["generate"]

# tests come after the build
[lifecycle.test]
depends_on = ["build"]

[lifecycle.deploy]
depends_on = ["test"]
"#;

fn summary(p: &Phase) -> (String, Vec<String>, Action, Vec<String>) {
    (p.name.clone(), p.depends_on.clone(), p.action, p.templates.clone())
}

fn s(items: &[&str]) -> Vec<String> {
    items.iter().map(|i| i.to_string()).collect()
}

#[test]
fn lifecycle_sections_become_phases_in_order() {
    let phases = parse_lifecycle(MAKE).expect("a configuration");
    let got: Vec<_> = phases.iter().map(summary).collect();
    assert_eq!(
        got,
        vec![
            ("init".to_string(), s(&[]), Action::Init, s(&[])),
            ("setup".to_string(), s(&[]), Action::Setup, s(&[])),
            (
                "generate".to_string(),
                s(&["setup"]),
                Action::Generate,
                s(&["templates/rust-service.tmpl", "templates/api-endpoint.tmpl"])
            ),
            ("build".to_string(), s(&["generate"]), Action::Build, s(&[])),
            ("test".to_string(), s(&["build"]), Action::Test, s(&[])),
            ("deploy".to_string(), s(&["test"]), Action::Deploy, s(&[])),
        ]
    );
    let schedule = Schedule::load(phases).expect("acyclic");
    assert_eq!(
        schedule.ordered_names(),
        vec!["init", "setup", "generate", "build", "test", "deploy"]
    );
}

#[test]
fn action_key_names_what_a_phase_does() {
    let text = "[lifecycle.docs]\naction = \"generate\"\ndepends_on = [ \"a\" , \"b c\" ]\ndepends_on = []\n[lifecycle.a]\naction=\"init\"\n";
    let phases = parse_lifecycle(text).expect("a configuration");
    assert_eq!(summary(&phases[0]), ("docs".to_string(), s(&[]), Action::Generate, s(&[])));
    assert_eq!(phases[1].action, Action::Init);
    let listed = parse_lifecycle("[lifecycle.x]\naction = \"test\"\ndepends_on = [ \"a\" , \"b c\" ]")
        .expect("a configuration");
    assert_eq!(listed[0].depends_on, s(&["a", "b c"]));
}

#[test]
fn phase_without_a_known_action_is_refused() {
    let text = "[lifecycle.build]\n[lifecycle.docs]\n[lifecycle.lint]\n";
    match parse_lifecycle(text) {
        Err(LifecycleError::UnknownAction { phase }) => assert_eq!(phase, "docs"),
        other => panic!("expected an unknown action, got {:?}", other),
    }
}

#[test]
fn malformed_lifecycle_lines_are_reported_with_their_number() {
    let cases = [
        ("[lifecycle.]\n", 1),
        ("[lifecycle.a]\ndepends_on = \"b\"\n", 2),
        ("[lifecycle.a]\n\ndepends_on = [b]\n", 3),
        ("[lifecycle.a]\ndepends_on = [\"b\", ]\n", 2),
        ("[lifecycle.a]\ntemplates = [\"b\"\n", 2),
        ("[lifecycle.a]\naction = \"compile\"\n", 2),
        ("[lifecycle.a]\naction = build\n", 2),
        ("[lifecycle.a]\njust words\n", 2),
    ];
    for (text, expected) in cases {
        match parse_lifecycle(text) {
            Err(LifecycleError::Malformed { line }) => assert_eq!(line, expected, "{text}"),
            other => panic!("expected a malformed line for {text:?}, got {:?}", other),
        }
    }
}

#[test]
fn text_without_lifecycle_sections_has_no_phases() {
    assert!(parse_lifecycle("").expect("a configuration").is_empty());
    assert!(parse_lifecycle("[project]\nname = \"x\"\nloose words\n")
        .expect("a configuration")
        .is_empty());
    assert!(parse_lifecycle("loose = [\ndepends_on = nothing").expect("a configuration").is_empty());
}
