use ggen_engine::engine::{
    find_collision, render_template, run_generate, run_schedule, TemplateError,
};
use ggen_engine::lifecycle::{Action, Phase, Schedule};
use ggen_engine::render::RenderError;
use ggen_engine::run::{PhaseState, Run};
use ggen_engine::store::Store;
use ggen_engine::template::ParseError;

fn store() -> Store {
    Store::load(
        "@prefix ex: <http://e/> .\nex:User a ex:Entity .\nex:User ex:hasProperty ex:id .\nex:User ex:hasRelationship ex:orders .\n",
    )
    .expect("a valid description")
}

fn phase(name: &str, depends_on: &[&str], action: Action, templates: &[&str]) -> Phase {
    Phase {
        name: name.to_string(),
        depends_on: depends_on.iter().map(|d| d.to_string()).collect(),
        action,
        templates: templates.iter().map(|t| t.to_string()).collect(),
    }
}

const GOOD: &str = "---\nto: src/{{ name | snake }}.rs\nvars:\n  name: UserService\nsparql:\n  entities: SELECT ?e WHERE { ?e a ex:Entity }\n---\n// {{ sparql_count(entities) }} entities\npub struct {{ name | pascal }};\n";
const BAD_FILTER: &str = "---\nto: src/bad.rs\nvars:\n  name: x\n---\n{{ name | shout }}\n";
const OTHER: &str = "---\nto: docs/{{ name | kebab }}.md\nvars:\n  name: UserService\n---\n# {{ name | title }}\n";

fn standard(templates: &[&str]) -> Vec<Phase> {
    vec![
        phase("init", &[], Action::Init, &[]),
        phase("setup", &[], Action::Setup, &[]),
        phase("generate", &["setup"], Action::Generate, templates),
        phase("build", &["generate"], Action::Build, &[]),
        phase("test", &["build"], Action::Test, &[]),
        phase("deploy", &["test"], Action::Deploy, &[]),
    ]
}

#[test]
fn one_failing_template_fails_the_phase_and_siblings_still_render() {
    let p = phase("generate", &[], Action::Generate, &[GOOD, BAD_FILTER, OTHER]);
    let report = run_generate(&p, &store(), &Vec::new());
    assert!(!report.succeeded);
    assert_eq!(report.results.len(), 3);
    let first = report.results[0].as_ref().expect("rendered");
    assert_eq!(first.output_path, "src/user_service.rs");
    assert_eq!(first.body, "// 1 entities\npub struct UserService;\n");
    match &report.results[1] {
        Err(TemplateError::Render(RenderError::UnknownFilter(name))) => assert_eq!(name, "shout"),
        other => panic!("expected an unknown filter, got {:?}", other),
    }
    let third = report.results[2].as_ref().expect("rendered");
    assert_eq!(third.output_path, "docs/user-service.md");
    assert_eq!(third.body, "# User Service\n");
}

#[test]
fn every_error_of_a_phase_is_collected() {
    let p = phase("generate", &[], Action::Generate, &["no frontmatter", BAD_FILTER, GOOD]);
    let report = run_generate(&p, &store(), &Vec::new());
    assert!(!report.succeeded);
    assert!(matches!(
        report.results[0],
        Err(TemplateError::Parse(ParseError::MissingFrontmatter))
    ));
    assert!(matches!(report.results[1], Err(TemplateError::Render(_))));
    assert!(report.results[2].is_ok());
}

#[test]
fn phase_without_failures_succeeds() {
    let p = phase("generate", &[], Action::Generate, &[GOOD, OTHER]);
    assert!(run_generate(&p, &store(), &Vec::new()).succeeded);
    let none = phase("generate", &[], Action::Generate, &[]);
    let report = run_generate(&none, &store(), &Vec::new());
    assert!(report.succeeded);
    assert!(report.results.is_empty());
}

#[test]
fn render_template_reports_parse_and_render_faults() {
    let s = store();
    assert!(matches!(
        render_template("---\nvars:\n---\n", &s, &Vec::new()),
        Err(TemplateError::Parse(ParseError::MissingOutputTarget))
    ));
    let overrides = vec![("name".to_string(), "order_item".to_string())];
    let out = render_template(GOOD, &s, &overrides).expect("rendered");
    assert_eq!(out.output_path, "src/order_item.rs");
    assert_eq!(out.body, "// 1 entities\npub struct OrderItem;\n");
}

#[test]
fn standard_lifecycle_executes_in_order() {
    let schedule = Schedule::load(standard(&[GOOD, OTHER])).expect("acyclic");
    let report = run_schedule(&schedule, &store(), &Vec::new(), &vec![true; 6]);
    assert!(report.succeeded);
    assert_eq!(report.executed, vec![0, 1, 2, 3, 4, 5]);
    assert_eq!(report.states, vec![PhaseState::Succeeded; 6]);
    let generated = report.reports[2].as_ref().expect("a report for the generate phase");
    assert_eq!(generated.results.len(), 2);
    assert!(report.reports.iter().enumerate().all(|(i, r)| r.is_some() == (i == 2)));
}

#[test]
fn failed_generate_phase_skips_its_dependents_only() {
    let schedule = Schedule::load(standard(&[GOOD, BAD_FILTER])).expect("acyclic");
    let report = run_schedule(&schedule, &store(), &Vec::new(), &Vec::new());
    assert!(!report.succeeded);
    assert_eq!(report.executed, vec![0, 1, 2]);
    assert_eq!(
        report.states,
        vec![
            PhaseState::Succeeded,
            PhaseState::Succeeded,
            PhaseState::Failed,
            PhaseState::Skipped,
            PhaseState::Skipped,
            PhaseState::Skipped,
        ]
    );
    let generated = report.reports[2].as_ref().expect("a report for the generate phase");
    assert!(!generated.succeeded);
    assert!(generated.results[0].is_ok());
    assert!(generated.results[1].is_err());
}

#[test]
fn failed_action_skips_transitive_dependents_and_others_still_run() {
    let phases = vec![
        phase("a", &[], Action::Init, &[]),
        phase("b", &["a"], Action::Build, &[]),
        phase("c", &["b"], Action::Test, &[]),
        phase("d", &[], Action::Setup, &[]),
        phase("e", &["d", "c"], Action::Deploy, &[]),
        phase("f", &["d"], Action::Generate, &[OTHER]),
    ];
    let schedule = Schedule::load(phases).expect("acyclic");
    let report =
        run_schedule(&schedule, &store(), &Vec::new(), &vec![true, false, true, true, true, true]);
    assert!(!report.succeeded);
    assert_eq!(report.executed, vec![0, 1, 3, 5]);
    assert_eq!(
        report.states,
        vec![
            PhaseState::Succeeded,
            PhaseState::Failed,
            PhaseState::Skipped,
            PhaseState::Succeeded,
            PhaseState::Skipped,
            PhaseState::Succeeded,
        ]
    );
    assert!(report.reports[5].is_some());
}

#[test]
fn run_machine_starts_phases_only_after_their_dependencies() {
    let schedule = Schedule::load(standard(&[])).expect("acyclic");
    let mut run = Run::new(&schedule);
    assert_eq!(run.snapshot(), vec![PhaseState::Pending; 6]);
    assert!(!run.is_settled());
    assert_eq!(run.next(&schedule), Some(0));
    assert!(!run.start(&schedule, 2));
    assert!(!run.start(&schedule, 17));
    assert!(!run.finish(&schedule, 0, true));
    assert!(run.start(&schedule, 0));
    assert!(!run.start(&schedule, 0));
    assert_eq!(run.state(0), PhaseState::Running);
    assert_eq!(run.next(&schedule), Some(1));
    assert!(run.start(&schedule, 1));
    assert_eq!(run.next(&schedule), None);
    assert!(run.finish(&schedule, 1, true));
    assert_eq!(run.next(&schedule), Some(2));
    assert!(run.finish(&schedule, 0, true));
    assert!(run.start(&schedule, 2));
    assert!(run.finish(&schedule, 2, true));
    assert!(run.start(&schedule, 3));
    assert!(run.finish(&schedule, 3, false));
    assert!(!run.finish(&schedule, 3, true));
    assert_eq!(
        run.snapshot(),
        vec![
            PhaseState::Succeeded,
            PhaseState::Succeeded,
            PhaseState::Succeeded,
            PhaseState::Failed,
            PhaseState::Skipped,
            PhaseState::Skipped,
        ]
    );
    assert_eq!(run.next(&schedule), None);
    assert!(run.is_settled());
    assert!(!run.succeeded());
}

#[test]
fn run_of_an_empty_schedule_succeeds() {
    let schedule = Schedule::load(Vec::new()).expect("acyclic");
    let run = Run::new(&schedule);
    assert!(run.is_settled());
    assert!(run.succeeded());
    let report = run_schedule(&schedule, &store(), &Vec::new(), &Vec::new());
    assert!(report.succeeded);
    assert!(report.executed.is_empty());
}

#[test]
fn templates_that_target_the_same_path_are_flagged() {
    let same = "---\nto: docs/user-service.md\n---\nother text\n";
    let p = phase("generate", &[], Action::Generate, &[GOOD, OTHER, BAD_FILTER, same, OTHER]);
    let report = run_generate(&p, &store(), &Vec::new());
    assert_eq!(find_collision(&report), Some((1, 3)));
    let distinct = phase("generate", &[], Action::Generate, &[GOOD, BAD_FILTER, OTHER, BAD_FILTER]);
    assert_eq!(find_collision(&run_generate(&distinct, &store(), &Vec::new())), None);
}
