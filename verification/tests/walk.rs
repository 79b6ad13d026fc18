use loomd::run::event::RunOutcome;
use loomd::run::graph::{Block, Catalogue, Endpoint, Graph, Wire};
use loomd::run::walk::{after_step, next_step, start_walk, StepAction, StepResult};

fn block(id: &str) -> Block {
    Block { id: id.to_string(), kind: "convert".to_string(), ports: Vec::new() }
}

fn wire(from: &str, to: &str) -> Wire {
    Wire {
        id: format!("{from}-{to}"),
        from: Endpoint { node: from.to_string(), port: "out".to_string() },
        to: Endpoint { node: to.to_string(), port: "in".to_string() },
    }
}

fn order(ids: &[&str]) -> Vec<String> {
    ids.iter().map(|s| s.to_string()).collect()
}

/// A block that throws does not stop the run: what it fed is skipped, the
/// other branch still runs, and the run ends Failed.
#[test]
fn a_failed_block_skips_its_downstream_and_the_rest_runs() {
    let g = Graph { id: "g".into(), blocks: vec![block("a"), block("b"), block("c")], wires: vec![wire("a", "b")], frames: 0 };
    let cat = Catalogue { kinds: Vec::new() };
    let order = order(&["a", "b", "c"]);
    let mut w = start_walk();
    assert!(matches!(next_step(&g, &cat, &order, &w, false), StepAction::Run));
    after_step(&mut w, &order, StepResult::Failed("boom".into()));
    match next_step(&g, &cat, &order, &w, false) {
        StepAction::Skip(m) => assert_eq!(m, "a"),
        _ => panic!("b is fed by a failed block"),
    }
    after_step(&mut w, &order, StepResult::Skipped);
    assert!(matches!(next_step(&g, &cat, &order, &w, false), StepAction::Run));
    after_step(&mut w, &order, StepResult::Produced(vec!["out".into()]));
    assert!(matches!(next_step(&g, &cat, &order, &w, false), StepAction::Finish(RunOutcome::Failed)));
    assert_eq!(w.errors, ["a: boom"]);
    assert_eq!(w.failed, ["a", "b"]);
    assert_eq!(w.ran, ["c"]);
    assert_eq!(w.held.len(), 1);
}

#[test]
fn a_clean_run_finishes_and_a_stop_ends_it_stopped() {
    let g = Graph { id: "g".into(), blocks: vec![block("a")], wires: Vec::new(), frames: 0 };
    let cat = Catalogue { kinds: Vec::new() };
    let order = order(&["a", "ghost"]);
    let mut w = start_walk();
    assert!(matches!(next_step(&g, &cat, &order, &w, false), StepAction::Run));
    after_step(&mut w, &order, StepResult::Produced(Vec::new()));
    assert!(matches!(next_step(&g, &cat, &order, &w, false), StepAction::Pass), "an id with no block is passed");
    assert!(matches!(next_step(&g, &cat, &order, &w, true), StepAction::Finish(RunOutcome::Stopped)));
    after_step(&mut w, &order, StepResult::Passed);
    assert!(matches!(next_step(&g, &cat, &order, &w, false), StepAction::Finish(RunOutcome::Finished)));
}
