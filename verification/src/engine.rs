//! The engine: renders the templates of a `Generate` phase and runs a
//! schedule from its first phase to its last.

use vstd::prelude::*;
use crate::text::views;
use crate::lifecycle::Action;
use crate::lifecycle::Phase;
use crate::lifecycle::Schedule;
use crate::run::PhaseState;
use crate::run::Run;
use crate::run::consistent;
use crate::run::blocked;
use crate::run::dependencies_succeeded;
use crate::store::Store;
use crate::template::parse;
use crate::template::read_template;
use crate::template::ParseError;
use crate::template::Fault;
use crate::render::render;
use crate::render::rendered;
use crate::render::RenderError;
use crate::render::RenderFault;
use crate::render::RenderedOutput;

verus! {

/// Why one template gave no output.
#[derive(Debug)]
pub enum TemplateError {
    /// The text is no template.
    Parse(ParseError),
    /// The template cannot be rendered.
    Render(RenderError),
}

/// Why one template gave no output.
pub enum TemplateFault {
    Parse(Fault),
    Render(RenderFault),
}

impl View for TemplateError {
    type V = TemplateFault;

    open spec fn view(&self) -> TemplateFault {
        match self {
            TemplateError::Parse(e) => TemplateFault::Parse(e@),
            TemplateError::Render(e) => TemplateFault::Render(e@),
        }
    }
}

/// What a template text gives against a store: the output path and the
/// body, or the fault of the text or of its rendering.
pub open spec fn generated(
    raw: Seq<char>,
    facts: Seq<(Seq<char>, Seq<char>, Seq<char>)>,
    store_prefixes: Seq<(Seq<char>, Seq<char>)>,
    base: Seq<char>,
    external: Seq<(Seq<char>, Seq<char>)>,
) -> Result<(Seq<char>, Seq<char>), TemplateFault> {
    match read_template(raw) {
        Err(f) => Err(TemplateFault::Parse(f)),
        Ok(doc) => match rendered(doc, facts, store_prefixes, base, external) {
            Err(f) => Err(TemplateFault::Render(f)),
            Ok(out) => Ok(out),
        },
    }
}

/// What a rendering result says, over views.
pub open spec fn outcome(r: Result<RenderedOutput, TemplateError>) -> Result<
    (Seq<char>, Seq<char>),
    TemplateFault,
> {
    match r {
        Ok(o) => Ok((o.output_path@, o.body@)),
        Err(e) => Err(e@),
    }
}

/// Parses and renders one template text.
pub fn render_template(raw: &str, store: &Store, external_vars: &Vec<(String, String)>) -> (out:
    Result<RenderedOutput, TemplateError>)
    ensures
        outcome(out) == generated(
            raw@,
            store.facts(),
            store.prefix_table(),
            store.base_iri(),
            views(external_vars@),
        ),
{
    match parse(raw) {
        Err(e) => Err(TemplateError::Parse(e)),
        Ok(doc) => match render(&doc, store, external_vars) {
            Err(e) => Err(TemplateError::Render(e)),
            Ok(o) => Ok(o),
        },
    }
}

/// What became of the templates of a phase: one result for each template,
/// in order, and whether all of them gave an output.
#[derive(Debug)]
pub struct PhaseReport {
    pub results: Vec<Result<RenderedOutput, TemplateError>>,
    pub succeeded: bool,
}

/// The report says of each of the templates what `generated` says, and it
/// reports success exactly when every template gave an output.
pub open spec fn reports_on(
    report: PhaseReport,
    templates: Seq<String>,
    facts: Seq<(Seq<char>, Seq<char>, Seq<char>)>,
    store_prefixes: Seq<(Seq<char>, Seq<char>)>,
    base: Seq<char>,
    external: Seq<(Seq<char>, Seq<char>)>,
) -> bool {
    &&& report.results@.len() == templates.len()
    &&& forall|k: int|
        0 <= k < templates.len() ==> outcome(#[trigger] report.results@[k]) == generated(
            templates[k]@,
            facts,
            store_prefixes,
            base,
            external,
        )
    &&& report.succeeded == renders_all(templates, facts, store_prefixes, base, external)
}

/// Every template gives an output.
pub open spec fn renders_all(
    templates: Seq<String>,
    facts: Seq<(Seq<char>, Seq<char>, Seq<char>)>,
    store_prefixes: Seq<(Seq<char>, Seq<char>)>,
    base: Seq<char>,
    external: Seq<(Seq<char>, Seq<char>)>,
) -> bool {
    forall|k: int|
        0 <= k < templates.len() ==> generated(
            (#[trigger] templates[k])@,
            facts,
            store_prefixes,
            base,
            external,
        ).is_ok()
}

/// Renders every template of a phase.
///
/// A template that fails does not stop the others: each template has its
/// own result, an output or an error, and the phase has succeeded exactly
/// when no template failed.
pub fn run_generate(phase: &Phase, store: &Store, external_vars: &Vec<(String, String)>) -> (out:
    PhaseReport)
    ensures
        reports_on(
            out,
            phase.templates@,
            store.facts(),
            store.prefix_table(),
            store.base_iri(),
            views(external_vars@),
        ),
{
    let mut results: Vec<Result<RenderedOutput, TemplateError>> = Vec::new();
    let mut succeeded: bool = true;
    let mut k: usize = 0;
    while k < phase.templates.len()
        invariant
            k <= phase.templates@.len(),
            results@.len() == k,
            forall|j: int|
                0 <= j < k ==> outcome(#[trigger] results@[j]) == generated(
                    phase.templates@[j]@,
                    store.facts(),
                    store.prefix_table(),
                    store.base_iri(),
                    views(external_vars@),
                ),
            succeeded == forall|j: int|
                0 <= j < k ==> generated(
                    (#[trigger] phase.templates@[j])@,
                    store.facts(),
                    store.prefix_table(),
                    store.base_iri(),
                    views(external_vars@),
                ).is_ok(),
        decreases phase.templates.len() - k,
    {
        let r = render_template(phase.templates[k].as_str(), store, external_vars);
        if r.is_err() {
            succeeded = false;
        }
        results.push(r);
        k += 1;
    }
    PhaseReport { results, succeeded }
}

/// A template that fails does not keep its siblings from rendering: the
/// phase has failed, the report holds the error of the one and the output
/// of the other.
pub proof fn lemma_failed_template_spares_its_siblings(
    phase: &Phase,
    store: &Store,
    external_vars: &Vec<(String, String)>,
    report: PhaseReport,
    bad: int,
    good: int,
)
    requires
        call_ensures(run_generate, (phase, store, external_vars), report),
        0 <= bad < phase.templates@.len(),
        0 <= good < phase.templates@.len(),
        generated(
            phase.templates@[bad]@,
            store.facts(),
            store.prefix_table(),
            store.base_iri(),
            views(external_vars@),
        ).is_err(),
        generated(
            phase.templates@[good]@,
            store.facts(),
            store.prefix_table(),
            store.base_iri(),
            views(external_vars@),
        ).is_ok(),
    ensures
        !report.succeeded,
        report.results@.len() == phase.templates@.len(),
        report.results@[good].is_ok(),
        outcome(report.results@[good]) == generated(
            phase.templates@[good]@,
            store.facts(),
            store.prefix_table(),
            store.base_iri(),
            views(external_vars@),
        ),
        report.results@[bad].is_err(),
        outcome(report.results@[bad]) == generated(
            phase.templates@[bad]@,
            store.facts(),
            store.prefix_table(),
            store.base_iri(),
            views(external_vars@),
        ),
{
    assert(outcome(report.results@[good]) == generated(
        phase.templates@[good]@,
        store.facts(),
        store.prefix_table(),
        store.base_iri(),
        views(external_vars@),
    ));
    assert(outcome(report.results@[bad]) == generated(
        phase.templates@[bad]@,
        store.facts(),
        store.prefix_table(),
        store.base_iri(),
        views(external_vars@),
    ));
}

/// Results `a` and `b` are outputs for one and the same path.
pub open spec fn collide(results: Seq<Result<RenderedOutput, TemplateError>>, a: int, b: int) -> bool {
    &&& 0 <= a < b < results.len()
    &&& results[a].is_ok()
    &&& results[b].is_ok()
    &&& results[a].unwrap().output_path@ == results[b].unwrap().output_path@
}

/// The pair `(a, b)` collides, and no pair with an earlier second member
/// does, nor one with the same second member and an earlier first.
pub open spec fn first_collision(
    results: Seq<Result<RenderedOutput, TemplateError>>,
    a: int,
    b: int,
) -> bool {
    &&& collide(results, a, b)
    &&& forall|x: int, y: int| #[trigger] collide(results, x, y) ==> b < y || (b == y && a <= x)
}

/// Finds two templates of a phase that gave outputs for the same path: the
/// first output that repeats the path of an earlier one, with the earliest
/// output of that path. Which of the two should be written is for the
/// caller to say.
pub fn find_collision(report: &PhaseReport) -> (out: Option<(usize, usize)>)
    ensures
        match out {
            Some((a, b)) => first_collision(report.results@, a as int, b as int),
            None => forall|x: int, y: int| !collide(report.results@, x, y),
        },
{
    let results = &report.results;
    let mut b: usize = 0;
    while b < results.len()
        invariant
            b <= results@.len(),
            results@ == report.results@,
            forall|x: int, y: int| 0 <= y < b ==> !collide(results@, x, y),
        decreases results.len() - b,
    {
        if let Ok(later) = &results[b] {
            let mut a: usize = 0;
            while a < b
                invariant
                    a <= b < results@.len(),
                    results@ == report.results@,
                    results@[b as int] matches Ok(o) && o == *later,
                    forall|x: int| 0 <= x < a ==> !collide(results@, x, b as int),
                    forall|x: int, y: int| 0 <= y < b ==> !collide(results@, x, y),
                decreases b - a,
            {
                if let Ok(earlier) = &results[a] {
                    if earlier.output_path == later.output_path {
                        proof {
                            assert(collide(results@, a as int, b as int));
                            assert forall|x: int, y: int| #[trigger]
                                collide(results@, x, y) implies b < y || (b == y && a <= x) by {
                                if y < b {
                                    assert(!collide(results@, x, y));
                                } else if y == b && x < a {
                                    assert(!collide(results@, x, b as int));
                                }
                            }
                        }
                        return Some((a, b));
                    }
                }
                a += 1;
            }
        }
        b += 1;
    }
    None
}

/// Whether the action of phase `i` goes well: what `actions` says of it,
/// and well where `actions` says nothing.
pub open spec fn action_ok(actions: Seq<bool>, i: int) -> bool {
    i >= actions.len() || actions[i]
}

/// Whether a phase that runs succeeds: its action goes well and, for a
/// `Generate` phase, every template gives an output.
pub open spec fn phase_ok(
    phase: Phase,
    action_goes_well: bool,
    facts: Seq<(Seq<char>, Seq<char>, Seq<char>)>,
    store_prefixes: Seq<(Seq<char>, Seq<char>)>,
    base: Seq<char>,
    external: Seq<(Seq<char>, Seq<char>)>,
) -> bool {
    action_goes_well && (phase.action == Action::Generate ==> renders_all(
        phase.templates@,
        facts,
        store_prefixes,
        base,
        external,
    ))
}

/// Whether a state is final.
pub open spec fn settled(state: PhaseState) -> bool {
    state == PhaseState::Succeeded || state == PhaseState::Failed || state == PhaseState::Skipped
}

/// What became of a run through a schedule.
#[derive(Debug)]
pub struct RunReport {
    /// The final state of each phase, by index.
    pub states: Vec<PhaseState>,
    /// The phases that ran, in the order in which they ran.
    pub executed: Vec<usize>,
    /// For each phase, by index, the report on its templates, if it is a
    /// `Generate` phase that ran.
    pub reports: Vec<Option<PhaseReport>>,
    /// Whether every phase succeeded.
    pub succeeded: bool,
}

/// Runs the phases of a schedule in running order.
///
/// `actions` says, by phase index, whether the action of a phase goes well
/// when the phase runs. A phase is skipped exactly when one of its
/// dependencies has failed or is skipped. Every other phase runs, and
/// succeeds exactly when its action goes well and, for a `Generate`
/// phase, all its templates give an output. The phases that ran are listed
/// in running order.
pub fn run_schedule(
    schedule: &Schedule,
    store: &Store,
    external_vars: &Vec<(String, String)>,
    actions: &Vec<bool>,
) -> (out: RunReport)
    requires
        schedule.wf(),
    ensures
        consistent(schedule.deps(), out.states@),
        forall|i: int| 0 <= i < out.states@.len() ==> settled(#[trigger] out.states@[i]),
        forall|i: int|
            0 <= i < out.states@.len() && (#[trigger] out.states@[i]) != PhaseState::Skipped ==> (
            out.states@[i] == PhaseState::Succeeded <==> phase_ok(
                schedule.phases()[i],
                action_ok(actions@, i),
                store.facts(),
                store.prefix_table(),
                store.base_iri(),
                views(external_vars@),
            )),
        out.reports@.len() == out.states@.len(),
        forall|i: int|
            0 <= i < out.states@.len() ==> ((#[trigger] out.reports@[i]).is_some() <==> (
            out.states@[i] != PhaseState::Skipped && schedule.phases()[i].action
                == Action::Generate)),
        forall|i: int|
            0 <= i < out.states@.len() && (#[trigger] out.reports@[i]).is_some() ==> reports_on(
                out.reports@[i].unwrap(),
                schedule.phases()[i].templates@,
                store.facts(),
                store.prefix_table(),
                store.base_iri(),
                views(external_vars@),
            ),
        out.succeeded == forall|i: int|
            0 <= i < out.states@.len() ==> (#[trigger] out.states@[i]) == PhaseState::Succeeded,
        forall|a: int| 0 <= a < out.executed@.len() ==> (#[trigger] out.executed@[a]) < out.states@.len(),
        forall|a: int, b: int|
            0 <= a < b < out.executed@.len() ==> schedule.positions()[(
            #[trigger] out.executed@[a]) as int] < schedule.positions()[(
            #[trigger] out.executed@[b]) as int],
        forall|j: int|
            0 <= j < out.states@.len() ==> (out.executed@.contains(j as usize) <==> (
            #[trigger] out.states@[j]) != PhaseState::Skipped),
{
    let n: usize = schedule.len();
    let ghost deps = schedule.deps();
    let ghost pos = schedule.positions();
    let ghost phases = schedule.phases();
    let ghost facts = store.facts();
    let ghost table = store.prefix_table();
    let ghost base = store.base_iri();
    let ghost ext = views(external_vars@);
    let order = schedule.running_order();
    let mut run: Run = Run::new(schedule);
    let mut reports: Vec<Option<PhaseReport>> = Vec::new();
    while reports.len() < n
        invariant
            reports@.len() <= n,
            forall|i: int| 0 <= i < reports@.len() ==> (#[trigger] reports@[i]).is_none(),
        decreases n - reports.len(),
    {
        reports.push(None);
    }
    let mut executed: Vec<usize> = Vec::new();
    let mut p: usize = 0;
    while p < n
        invariant
            schedule.wf(),
            n == schedule.phases().len(),
            deps == schedule.deps(),
            pos == schedule.positions(),
            phases == schedule.phases(),
            facts == store.facts(),
            table == store.prefix_table(),
            base == store.base_iri(),
            ext == views(external_vars@),
            order@ == schedule.order(),
            p <= n,
            run.fits(schedule),
            run.states().len() == n,
            reports@.len() == n,
            forall|i: int|
                0 <= i < n && pos[i] < p ==> settled(#[trigger] run.states()[i]) && (run.states()[i]
                    != PhaseState::Skipped ==> (run.states()[i] == PhaseState::Succeeded
                    <==> phase_ok(phases[i], action_ok(actions@, i), facts, table, base, ext))),
            forall|i: int|
                0 <= i < n && pos[i] >= p ==> (#[trigger] run.states()[i]) == PhaseState::Pending
                    || run.states()[i] == PhaseState::Skipped,
            forall|i: int|
                0 <= i < n && pos[i] < p ==> ((#[trigger] reports@[i]).is_some() <==> (
                run.states()[i] != PhaseState::Skipped && phases[i].action == Action::Generate)),
            forall|i: int| 0 <= i < n && pos[i] >= p ==> (#[trigger] reports@[i]).is_none(),
            forall|i: int|
                0 <= i < n && (#[trigger] reports@[i]).is_some() ==> reports_on(
                    reports@[i].unwrap(),
                    phases[i].templates@,
                    facts,
                    table,
                    base,
                    ext,
                ),
            forall|a: int|
                0 <= a < executed@.len() ==> (#[trigger] executed@[a]) < n && pos[executed@[a] as int]
                    < p,
            forall|a: int, b: int|
                0 <= a < b < executed@.len() ==> pos[(#[trigger] executed@[a]) as int] < pos[(
                #[trigger] executed@[b]) as int],
            forall|j: int|
                0 <= j < n && pos[j] < p ==> (executed@.contains(j as usize) <==> (
                #[trigger] run.states()[j]) != PhaseState::Skipped),
        decreases n - p,
    {
        let j: usize = order[p];
        assert(j < n);
        assert(pos[order@[p as int] as int] == p);
        let ghost before = run.states();
        let ghost old_executed = executed@;
        let ghost old_reports = reports@;
        if run.state(j) == PhaseState::Skipped {
            proof {
                assert(!executed@.contains(j)) by {
                    if executed@.contains(j) {
                        let a = choose|a: int| 0 <= a < executed@.len() && executed@[a] == j;
                        assert(pos[executed@[a] as int] < p);
                    }
                }
            }
        } else {
            proof {
                assert(before[j as int] == PhaseState::Pending);
                assert(dependencies_succeeded(deps, before, j as int)) by {
                    assert forall|k: int| 0 <= k < deps[j as int].len() implies before[(
                    #[trigger] deps[j as int][k]) as int] == PhaseState::Succeeded by {
                        let d = deps[j as int][k] as int;
                        assert(d < n);
                        assert(pos[d] < pos[j as int]);
                        assert(settled(before[d]));
                        if before[d] != PhaseState::Succeeded {
                            assert(blocked(deps, before, j as int));
                        }
                    }
                }
            }
            let did_start: bool = run.start(schedule, j);
            assert(did_start);
            let goes_well: bool = if j < actions.len() {
                actions[j]
            } else {
                true
            };
            let phase = schedule.phase(j);
            let ok: bool = if phase.action == Action::Generate {
                let report = run_generate(phase, store, external_vars);
                let all: bool = report.succeeded;
                reports.set(j, Some(report));
                goes_well && all
            } else {
                goes_well
            };
            assert(ok == phase_ok(phases[j as int], action_ok(actions@, j as int), facts, table, base, ext));
            let ghost running = run.states();
            let did_finish: bool = run.finish(schedule, j, ok);
            assert(did_finish);
            executed.push(j);
            proof {
                let now = run.states();
                assert forall|i: int| 0 <= i < n && i != j implies (#[trigger] now[i]) == before[i]
                    || (before[i] == PhaseState::Pending && now[i] == PhaseState::Skipped) by {
                    assert(running[i] == before[i]);
                }
                assert forall|x: int| 0 <= x < n && pos[x] < p + 1 implies (executed@.contains(
                    x as usize,
                ) <==> (#[trigger] now[x]) != PhaseState::Skipped) by {
                    if x == j {
                        assert(executed@[old_executed.len() as int] == j);
                    } else {
                        assert(pos[x] != p) by {
                            assert(order@[pos[x] as int] == x);
                        }
                        assert(settled(before[x]));
                        assert(now[x] == before[x]);
                        if old_executed.contains(x as usize) {
                            let a = choose|a: int|
                                0 <= a < old_executed.len() && old_executed[a] == x as usize;
                            assert(executed@[a] == x as usize);
                        }
                        if executed@.contains(x as usize) {
                            let a = choose|a: int|
                                0 <= a < executed@.len() && executed@[a] == x as usize;
                            assert(a < old_executed.len());
                            assert(old_executed[a] == x as usize);
                        }
                    }
                }
                assert forall|i: int| 0 <= i < n && pos[i] < p + 1 implies settled(
                    #[trigger] now[i],
                ) && (now[i] != PhaseState::Skipped ==> (now[i] == PhaseState::Succeeded
                    <==> phase_ok(phases[i], action_ok(actions@, i), facts, table, base, ext))) by {
                    if i != j {
                        assert(pos[i] != p) by {
                            assert(order@[pos[i] as int] == i);
                        }
                        assert(settled(before[i]));
                    }
                }
                assert forall|i: int| 0 <= i < n && pos[i] < p + 1 implies ((
                #[trigger] reports@[i]).is_some() <==> (now[i] != PhaseState::Skipped
                    && phases[i].action == Action::Generate)) by {
                    if i != j {
                        assert(pos[i] != p) by {
                            assert(order@[pos[i] as int] == i);
                        }
                        assert(settled(before[i]));
                        assert(reports@[i] == old_reports[i]);
                    }
                }
                assert forall|i: int| 0 <= i < n && pos[i] >= p + 1 implies (
                #[trigger] reports@[i]).is_none() by {
                    assert(reports@[i] == old_reports[i]);
                }
                assert forall|i: int| 0 <= i < n && (#[trigger] reports@[i]).is_some()
                    implies reports_on(
                    reports@[i].unwrap(),
                    phases[i].templates@,
                    facts,
                    table,
                    base,
                    ext,
                ) by {
                    if i != j {
                        assert(reports@[i] == old_reports[i]);
                    }
                }
                assert forall|a: int, b: int| 0 <= a < b < executed@.len() implies pos[(
                #[trigger] executed@[a]) as int] < pos[(#[trigger] executed@[b]) as int] by {
                    if b == old_executed.len() {
                        assert(executed@[a] == old_executed[a]);
                    } else {
                        assert(executed@[a] == old_executed[a]);
                        assert(executed@[b] == old_executed[b]);
                    }
                }
            }
        }
        p += 1;
    }
    let states: Vec<PhaseState> = run.snapshot();
    let succeeded: bool = run.succeeded();
    proof {
        assert forall|i: int| 0 <= i < n implies pos[i] < n by {}
    }
    RunReport { states, executed, reports, succeeded }
}

} // verus!
