use ggen_engine::lifecycle::{find_phase, Action, Phase, Schedule, SchedulerError};

fn phase(name: &str, depends_on: &[&str], action: Action) -> Phase {
    Phase {
        name: name.to_string(),
        depends_on: depends_on.iter().map(|d| d.to_string()).collect(),
        action,
        templates: Vec::new(),
    }
}

fn standard() -> Vec<Phase> {
    vec![
        phase("init", &[], Action::Init),
        phase("setup", &[], Action::Setup),
        phase("generate", &["setup"], Action::Generate),
        phase("build", &["generate"], Action::Build),
        phase("test", &["build"], Action::Test),
        phase("deploy", &["test"], Action::Deploy),
    ]
}

#[test]
fn standard_lifecycle_runs_in_declared_order() {
    let schedule = Schedule::load(standard()).expect("an acyclic lifecycle");
    assert_eq!(
        schedule.ordered_names(),
        vec!["init", "setup", "generate", "build", "test", "deploy"]
    );
    assert_eq!(schedule.running_order(), &vec![0, 1, 2, 3, 4, 5]);
    assert_eq!(schedule.len(), 6);
    assert_eq!(schedule.dependencies(3), &vec![2]);
    assert_eq!(schedule.phase(2).action, Action::Generate);
}

#[test]
fn dependency_from_setup_back_to_deploy_is_a_cycle() {
    let mut phases = standard();
    phases[1].depends_on.push("deploy".to_string());
    match Schedule::load(phases) {
        Err(SchedulerError::CyclicDependency { members }) => {
            assert_eq!(members, vec!["setup", "deploy", "test", "build", "generate"]);
        }
        other => panic!("expected a cycle, got {:?}", other.map(|s| s.ordered_names())),
    }
}

#[test]
fn dependencies_run_first_whatever_the_declaration_order() {
    let phases = vec![
        phase("deploy", &["test", "build"], Action::Deploy),
        phase("test", &["build"], Action::Test),
        phase("docs", &[], Action::Generate),
        phase("build", &[], Action::Build),
    ];
    let schedule = Schedule::load(phases).expect("an acyclic lifecycle");
    assert_eq!(schedule.ordered_names(), vec!["docs", "build", "test", "deploy"]);
}

#[test]
fn unknown_phase_reference_is_reported() {
    let phases = vec![
        phase("init", &[], Action::Init),
        phase("build", &["init", "compile", "missing"], Action::Build),
        phase("test", &["nothing"], Action::Test),
    ];
    match Schedule::load(phases) {
        Err(SchedulerError::UnknownPhase { phase, reference }) => {
            assert_eq!(phase, "build");
            assert_eq!(reference, "compile");
        }
        other => panic!("expected an unknown phase, got {:?}", other.map(|s| s.ordered_names())),
    }
}

#[test]
fn a_phase_that_depends_on_itself_is_a_cycle() {
    let phases = vec![phase("init", &[], Action::Init), phase("loop", &["loop"], Action::Build)];
    match Schedule::load(phases) {
        Err(SchedulerError::CyclicDependency { members }) => assert_eq!(members, vec!["loop"]),
        other => panic!("expected a cycle, got {:?}", other.map(|s| s.ordered_names())),
    }
}

#[test]
fn phases_behind_a_cycle_are_not_named_as_members() {
    let phases = vec![
        phase("a", &["b"], Action::Build),
        phase("b", &["a"], Action::Build),
        phase("after", &["a"], Action::Test),
    ];
    match Schedule::load(phases) {
        Err(SchedulerError::CyclicDependency { members }) => assert_eq!(members, vec!["a", "b"]),
        other => panic!("expected a cycle, got {:?}", other.map(|s| s.ordered_names())),
    }
}

#[test]
fn empty_lifecycle_is_a_schedule() {
    let schedule = Schedule::load(Vec::new()).expect("nothing to order");
    assert!(schedule.running_order().is_empty());
}

#[test]
fn names_resolve_to_the_first_phase_so_called() {
    let phases = vec![
        phase("x", &[], Action::Init),
        phase("y", &[], Action::Init),
        phase("x", &[], Action::Init),
    ];
    assert_eq!(find_phase(&phases, &"x".to_string()), Some(0));
    assert_eq!(find_phase(&phases, &"y".to_string()), Some(1));
    assert_eq!(find_phase(&phases, &"z".to_string()), None);
}
