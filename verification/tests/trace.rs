use loomd::run::blocks::Output;
use loomd::run::event::{BlockState, RunOutcome};
use loomd::run::graph::{Block, Catalogue, Endpoint, Graph, Wire};
use loomd::run::plan::plan;
use loomd::run::runner::{Route, Routed};
use loomd::run::trace::{call_events, call_result, finished, opening_events, runs, RunEvent};
use loomd::run::walk::{after_step, start_walk, StepResult};

fn routed(route: Route) -> Routed {
    Routed { display: "motor.move".into(), callee: "motor".into(), verb: "move".into(), route }
}

fn kind(e: &RunEvent<u8>) -> String {
    match e {
        RunEvent::Started { .. } => "started".into(),
        RunEvent::BlockState { state, .. } => format!("state {state:?}"),
        RunEvent::Console { .. } => "console".into(),
        RunEvent::ToolCall { .. } => "call".into(),
        RunEvent::BlockDone { .. } => "done".into(),
        RunEvent::BlockError { .. } => "error".into(),
        RunEvent::ToolResult { ok, .. } => format!("result {ok}"),
        RunEvent::Finished { .. } => "finished".into(),
    }
}

/// A call a fault refused runs nothing and is still shown: called, running,
/// failed with the refusal, answered with it, ready again.
#[test]
fn a_fault_stops_the_toolbox_and_home_starts_it_again() {
    let refused = routed(Route::Refused("toolbox".into()));
    assert!(!runs(&refused));
    let v = call_events("run-1", "llm", &refused, 0u8, &None, 3);
    let kinds: Vec<String> = v.iter().map(kind).collect();
    assert_eq!(kinds, ["call", "state Running", "error", "result false", "state Ready"]);
    let why = call_result(&refused, &None);
    assert!(why.starts_with("not called: a fault stopped toolbox"));
    match &v[3] {
        RunEvent::ToolResult { callee, result, .. } => {
            assert_eq!(callee, "motor");
            assert_eq!(result, &why);
        }
        _ => panic!("the result"),
    }
    // `home` goes through and runs.
    let home = Routed { display: "motor.home".into(), callee: "motor".into(), verb: "home".into(), route: Route::Call };
    assert!(runs(&home));
    let done = Some(Ok(Output { stdout: "pan 0° · tilt 0°".into(), stderr: String::new(), code: 0, ms: 1 }));
    let v = call_events("run-1", "llm", &home, 0u8, &done, 1);
    let kinds: Vec<String> = v.iter().map(kind).collect();
    assert_eq!(kinds, ["call", "state Running", "done", "result true", "state Ready"]);
}

#[test]
fn a_call_to_nothing_leaves_no_trace() {
    assert!(call_events("r", "llm", &routed(Route::Unknown), 0u8, &None, 0).is_empty());
    assert!(call_events("r", "llm", &routed(Route::NotGiven), 0u8, &None, 0).is_empty());
    assert!(call_events("r", "llm", &routed(Route::NoBlock), 0u8, &None, 0).is_empty());
    let failed = call_events("r", "llm", &routed(Route::Call), 0u8, &Some(Err("no line was given to send".into())), 2);
    let kinds: Vec<String> = failed.iter().map(kind).collect();
    assert_eq!(kinds, ["call", "state Running", "error", "result false", "state Ready"]);
}

fn block(id: &str, kind: &str) -> Block {
    Block { id: id.into(), kind: kind.into(), ports: Vec::new() }
}

/// A run starts with its order and ends with its outcome and what reached
/// its Output blocks.
#[test]
fn a_run_starts_with_its_order_and_finishes_with_its_results() {
    let g = Graph {
        id: "g".into(),
        blocks: vec![block("text", "text"), block("out", "output")],
        wires: vec![Wire {
            id: "w".into(),
            from: Endpoint { node: "text".into(), port: "text".into() },
            to: Endpoint { node: "out".into(), port: "value".into() },
        }],
        frames: 0,
    };
    let cat = Catalogue { kinds: Vec::new() };
    let p = plan(&g, &cat);
    let open: Vec<RunEvent<u8>> = opening_events("run-1", "g", &g, &p, &Vec::new(), true);
    match &open[0] {
        RunEvent::Started { order, .. } => assert_eq!(order, &p.order),
        _ => panic!("a run starts with Started"),
    }
    let mut w = start_walk();
    after_step(&mut w, &p.order, StepResult::Produced(vec!["text".into()]));
    let end: RunEvent<u8> = finished("run-1", &g, &cat, &w, false, &vec![("out".into(), "answer".into())], 5);
    match end {
        RunEvent::Finished { outcome, results, ms, .. } => {
            assert_eq!(outcome, RunOutcome::Finished);
            assert_eq!(ms, 5);
            assert_eq!(results.len(), 1);
            assert_eq!(results[0].0, "answer");
            assert_eq!(results[0].1.node, "text");
        }
        _ => panic!("a run ends with Finished"),
    }
    let live: Vec<RunEvent<u8>> = opening_events("run-1", "g", &g, &p, &Vec::new(), false);
    assert!(live.iter().all(|e| matches!(e, RunEvent::BlockState { state: BlockState::Queued, .. } | RunEvent::BlockState { .. })));
}
