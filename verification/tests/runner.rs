use loomd::run::event::{BlockState, RunOutcome};
use loomd::run::graph::{Block, Catalogue, Endpoint, Graph, Kind, Port, PortType, Side, Wire};
use loomd::run::runner::{
    error_line, forget_warning, inputs_of, missing_input, off_the_path, forgot, frame_figure, lit_wires, skipped_line, frame_items, job_for, no_such_tool, remembered_as, Args, Job, opening_state, outcome, plural, route, step_failure, tool_for, Bench, Decision,
    Route, Tool, Trust,
};

fn block(id: &str, kind: &str) -> Block {
    Block { id: id.into(), kind: kind.into(), ports: Vec::new() }
}

fn wire(id: &str, from: (&str, &str), to: (&str, &str)) -> Wire {
    Wire { id: id.into(), from: Endpoint::new(from.0, from.1), to: Endpoint::new(to.0, to.1) }
}

/// A model holding motors through a toolbox, with the motors' fault wired to
/// the toolbox's pause.
fn bench_graph() -> Graph {
    Graph {
        id: "motors".into(),
        blocks: vec![block("llm", "llm"), block("motor", "motors"), block("toolbox", "toolbox"), block("terminal", "terminal")],
        wires: vec![
            wire("w1", ("motor", "tools"), ("toolbox", "tools")),
            wire("w2", ("toolbox", "tools"), ("llm", "tools")),
            wire("w3", ("motor", "fault"), ("toolbox", "pause")),
            wire("w4", ("terminal", "tools"), ("llm", "tools")),
        ],
        frames: 0,
    }
}

fn strings(v: &[&str]) -> Vec<String> {
    v.iter().map(|s| s.to_string()).collect()
}

#[test]
fn continue_always_means_not_asked_again_and_stop_stops() {
    let mut trust = Trust::new();
    assert!(trust.asks("terminal"));
    assert!(trust.settle("terminal", Decision::Continue));
    assert!(trust.asks("terminal"), "a plain yes is for this once");
    assert!(trust.settle("terminal", Decision::ContinueAlways));
    assert!(!trust.asks("terminal"));
    assert!(trust.asks("python"));
    assert!(!trust.stopped);
    assert!(!trust.settle("python", Decision::Stop));
    assert!(trust.stopped);
    trust.trust("terminal");
    assert_eq!(trust.trusted, ["terminal"], "trusted once, listed once");
}

#[test]
fn a_call_goes_where_its_name_says() {
    let g = bench_graph();
    let held = strings(&["motor", "terminal", "ghost"]);
    let none: Vec<String> = Vec::new();
    let r = route(&g, &held, &none, "terminal_run");
    assert_eq!(r.display, "terminal.run");
    assert_eq!(r.callee, "terminal");
    assert_eq!(r.verb, "run");
    assert_eq!(r.route, Route::Call);
    assert_eq!(r.refusal(), None);

    let unknown = route(&g, &held, &none, "dance");
    assert_eq!(unknown.route, Route::Unknown);
    assert_eq!(unknown.refusal().unwrap(), "there is no tool called `dance`");

    let not_given = route(&g, &held, &none, "python_exec");
    assert_eq!(not_given.route, Route::NotGiven);
    assert_eq!(not_given.refusal().unwrap(), "`python.exec` is not one of the tools you were given");

    let no_block = route(&g, &held, &none, "ghost_run");
    assert_eq!(no_block.route, Route::NoBlock);
    assert_eq!(no_block.refusal().unwrap(), "there is no block called `ghost`");
}

/// A fault stops the Toolbox behind it, and going home is how it is cleared.
#[test]
fn a_fault_stops_the_toolbox_and_home_still_goes_through() {
    let g = bench_graph();
    let held = strings(&["motor", "terminal"]);
    let mut bench = Bench::new();
    assert!(!bench.is_scripted());
    assert_eq!(bench.fault(&g, "motor"), ["toolbox"]);
    assert_eq!(bench.fault(&g, "motor"), ["toolbox"]);
    assert_eq!(bench.holding(), ["toolbox"], "held once however often it faults");
    let holding = bench.holding();

    let refused = route(&g, &held, &holding, "motor_move");
    assert_eq!(refused.route, Route::Refused("toolbox".into()));
    assert_eq!(
        refused.refusal().unwrap(),
        "not called: a fault stopped toolbox. Call a clearing tool such as `motor.home`, or ask the user to resume."
    );
    assert_eq!(route(&g, &held, &holding, "motor_home").route, Route::Call);
    // A block that is not behind the held Toolbox is not affected.
    assert_eq!(route(&g, &held, &holding, "terminal_run").route, Route::Call);

    bench.clear();
    assert!(bench.holding().is_empty());
    assert_eq!(route(&g, &held, &bench.holding(), "motor_move").route, Route::Call);
    assert!(Bench::scripted().is_scripted());
}

#[test]
fn each_kind_knows_its_own_tools() {
    assert_eq!(tool_for("terminal", "run"), Tool::Shell);
    assert_eq!(tool_for("python", "exec"), Tool::Python);
    assert_eq!(tool_for("motors", "move"), Tool::Move);
    assert_eq!(tool_for("motors", "home"), Tool::Home);
    assert_eq!(tool_for("usb-device", "send"), Tool::Send);
    assert_eq!(tool_for("terminal", "exec"), Tool::Missing);
    assert_eq!(no_such_tool("terminal", "exec"), "`terminal` has no tool called `exec`");
}

#[test]
fn counts_are_said_in_words() {
    assert_eq!(plural(0, "memory"), "no memories");
    assert_eq!(plural(1, "memory"), "1 memory");
    assert_eq!(plural(3, "memory"), "3 memories");
    assert_eq!(plural(2, "file"), "2 files");
    assert_eq!(frame_figure(1), "1 item");
    assert_eq!(frame_figure(7), "7 items");
}

#[test]
fn a_failed_step_says_its_command_its_code_and_its_last_words() {
    assert_eq!(
        step_failure("cargo build", "Compiling x\nerror: could not compile `x`\n\n", 101),
        "`cargo build` exited 101: error: could not compile `x`"
    );
    assert_eq!(step_failure("false", "", 1), "`false` exited 1");
    assert_eq!(step_failure("kill", "  \n", -9), "`kill` exited -9");
}

#[test]
fn a_frame_takes_up_to_its_maximum() {
    assert_eq!(frame_items(5, 3), 3);
    assert_eq!(frame_items(2, 3), 2);
    assert_eq!(frame_items(5, 0), 1);
    assert_eq!(frame_items(0, 0), 0);
}

#[test]
fn how_a_run_ended_and_how_a_block_opens() {
    assert_eq!(outcome(true, 3), RunOutcome::Stopped);
    assert_eq!(outcome(false, 0), RunOutcome::Finished);
    assert_eq!(outcome(false, 2), RunOutcome::Failed);
    assert_eq!(opening_state(true, true, true, true), Some(BlockState::Disabled));
    assert_eq!(opening_state(false, true, true, true), Some(BlockState::Queued));
    assert_eq!(opening_state(false, false, true, true), Some(BlockState::Ready));
    assert_eq!(opening_state(false, false, false, true), Some(BlockState::Idle));
    assert_eq!(opening_state(false, false, false, false), None);
}

fn args() -> Args {
    Args { command: None, code: None, line: None, text: None, kind: None, what: None }
}

/// A Terminal called with no command runs the one it was set up with, and
/// every other tool needs what it works on.
#[test]
fn a_call_is_read_into_the_job_it_asks_for() {
    assert_eq!(job_for("terminal", "run", args(), Some("cargo build")), Ok(Job::Shell("cargo build".into())));
    assert_eq!(
        job_for("terminal", "run", Args { command: Some("ls".into()), ..args() }, Some("cargo build")),
        Ok(Job::Shell("ls".into()))
    );
    assert_eq!(
        job_for("terminal", "run", args(), None),
        Err("no command was given and the block has no default".into())
    );
    assert_eq!(job_for("python", "exec", args(), None), Err("no code was given".into()));
    assert_eq!(job_for("motors", "home", args(), None), Ok(Job::Home));
    assert_eq!(job_for("usb-device", "send", args(), None), Err("no line was given to send".into()));
    assert_eq!(
        job_for("memory-hub", "remember", Args { text: Some("Sam".into()), ..args() }, None),
        Ok(Job::Remember { text: "Sam".into(), kind: "episode".into() })
    );
    assert_eq!(job_for("memory-hub", "forget", args(), None), Err("nothing was given to forget".into()));
    assert_eq!(job_for("camera", "zoom", args(), None), Err("`camera` has no tool called `zoom`".into()));
}

#[test]
fn forgetting_asks_first_and_says_what_went() {
    let w = forget_warning("memory", "Sam");
    assert_eq!(w.action, "Forget everything matching `Sam`");
    assert!(!w.remember);
    assert_eq!(forgot(2), "forgot 2 memories");
    assert_eq!(forgot(0), "forgot no memories");
    assert_eq!(remembered_as("w3"), "remembered, as w3");
}

#[test]
fn the_wires_that_carried_a_value_light_up() {
    let mut g = bench_graph();
    g.wires.push(wire("w5", ("terminal", "stdout"), ("llm", "prompt")));
    let produced = vec!["stdout".to_string()];
    assert_eq!(lit_wires(&g, "terminal", &produced), ["w5"]);
    assert_eq!(lit_wires(&g, "motor", &produced), Vec::<String>::new());
    assert_eq!(skipped_line("input"), "skipped: input produced nothing this run");
    assert_eq!(error_line("llm", "stopped"), "llm: stopped");
}

fn branch_graph() -> (Graph, Catalogue) {
    let port = |name: &str, side: Side, port_type: PortType| Port { name: name.into(), side, port_type };
    let cat = Catalogue {
        kinds: vec![
            Kind { id: "input".into(), source: false, ports: vec![port("value", Side::Out, PortType::Text)] },
            Kind {
                id: "branch".into(),
                source: false,
                ports: vec![port("value", Side::In, PortType::Any), port("a", Side::Out, PortType::Exec), port("b", Side::Out, PortType::Exec)],
            },
            Kind { id: "report".into(), source: false, ports: vec![port("go", Side::In, PortType::Exec), port("value", Side::In, PortType::Any)] },
        ],
    };
    let g = Graph {
        id: "branching".into(),
        blocks: vec![block("input", "input"), block("branch", "branch"), block("yes", "report"), block("no", "report")],
        wires: vec![
            wire("w1", ("input", "value"), ("branch", "value")),
            wire("w2", ("branch", "a"), ("yes", "go")),
            wire("w3", ("branch", "b"), ("no", "go")),
            wire("w4", ("input", "value"), ("yes", "value")),
        ],
        frames: 0,
    };
    (g, cat)
}

/// A Branch produces on one of its two exec ports; what is below the other
/// is off the path and does not run.
#[test]
fn what_is_below_the_branch_not_taken_does_not_run() {
    let (g, cat) = branch_graph();
    let ran = strings(&["input", "branch"]);
    let held = vec![Endpoint::new("input", "value"), Endpoint::new("branch", "a")];
    assert!(!off_the_path(&g, &cat, "yes", &ran, &held));
    assert!(off_the_path(&g, &cat, "no", &ran, &held));
    assert!(!off_the_path(&g, &cat, "input", &ran, &held), "nothing control-flows into it");
    // Before the branch has run, nothing below it is off the path yet.
    assert!(!off_the_path(&g, &cat, "no", &strings(&["input"]), &held));
}

#[test]
fn a_block_whose_upstream_failed_says_which_one() {
    let (g, _) = branch_graph();
    assert_eq!(missing_input(&g, "yes", &strings(&["input"])).as_deref(), Some("input"));
    assert_eq!(missing_input(&g, "yes", &strings(&["other"])), None);
}

/// An exec wire is control flow and never a value.
#[test]
fn a_block_reads_its_values_and_not_its_control_flow() {
    let (g, cat) = branch_graph();
    let held = vec![Endpoint::new("input", "value"), Endpoint::new("branch", "a")];
    let inputs = inputs_of(&g, &cat, "yes", &held);
    assert_eq!(inputs.len(), 1);
    assert_eq!(inputs[0].0, "value");
    assert_eq!((inputs[0].1.node.as_str(), inputs[0].1.port.as_str()), ("input", "value"));
}
