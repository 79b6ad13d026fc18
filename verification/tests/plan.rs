use loomd::run::graph::{Block, Catalogue, Endpoint, Graph, Kind, Port, PortType, Side, Wire};
use loomd::run::plan::plan;

fn port(name: &str, side: Side, port_type: PortType) -> Port {
    Port { name: name.into(), side, port_type }
}

fn kind(id: &str, source: bool, ports: Vec<Port>) -> Kind {
    Kind { id: id.into(), source, ports }
}

/// The kinds these graphs are made of, with the ports each declares.
fn catalogue() -> Catalogue {
    Catalogue {
        kinds: vec![
            kind("input", false, vec![port("value", Side::Out, PortType::Text)]),
            kind("llm", false, vec![port("prompt", Side::In, PortType::Text), port("tools", Side::In, PortType::Tools), port("text", Side::Out, PortType::Text)]),
            kind("report", false, vec![port("value", Side::In, PortType::Any)]),
            kind("terminal", false, vec![port("command", Side::In, PortType::Text), port("stdout", Side::Out, PortType::Text), port("tools", Side::Out, PortType::Tools)]),
            kind("python", false, vec![port("tools", Side::Out, PortType::Tools), port("result", Side::Out, PortType::Data)]),
            kind("toolbox", false, vec![port("tools", Side::In, PortType::Tools), port("tools", Side::Out, PortType::Tools)]),
            kind("convert", false, vec![port("value", Side::In, PortType::Any), port("value", Side::Out, PortType::Any)]),
            kind("branch", false, vec![port("value", Side::In, PortType::Any), port("yes", Side::Out, PortType::Any), port("no", Side::Out, PortType::Any)]),
            kind("webhook", true, vec![port("body", Side::Out, PortType::Data)]),
            kind("watch", true, vec![port("file", Side::Out, PortType::File)]),
            kind("schedule", true, vec![port("tick", Side::Out, PortType::Exec)]),
            kind("notify", false, vec![port("message", Side::In, PortType::Text)]),
        ],
    }
}

fn block(id: &str, kind: &str) -> Block {
    Block { id: id.into(), kind: kind.into(), ports: Vec::new() }
}

fn wire(id: &str, from: (&str, &str), to: (&str, &str)) -> Wire {
    Wire { id: id.into(), from: Endpoint::new(from.0, from.1), to: Endpoint::new(to.0, to.1) }
}

/// Six blocks: an input asks a model, the model answers into a report, and
/// holds a terminal and a python runtime through a toolbox.
fn customer_triage() -> Graph {
    Graph {
        id: "customer-triage".into(),
        blocks: vec![
            block("input", "input"),
            block("llm", "llm"),
            block("report", "report"),
            block("terminal", "terminal"),
            block("python", "python"),
            block("toolbox", "toolbox"),
        ],
        wires: vec![
            wire("w1", ("input", "value"), ("llm", "prompt")),
            wire("w2", ("terminal", "tools"), ("toolbox", "tools")),
            wire("w3", ("python", "tools"), ("toolbox", "tools")),
            wire("w4", ("toolbox", "tools"), ("llm", "tools")),
            wire("w5", ("llm", "text"), ("report", "value")),
        ],
        frames: 0,
    }
}

/// Three sources on one canvas: a file arriving is triaged, a clock sends a
/// digest, and a webhook is armed beside them.
fn inbox_triage() -> Graph {
    Graph {
        id: "inbox-triage".into(),
        blocks: vec![
            block("webhook", "webhook"),
            block("watch", "watch"),
            block("classify", "llm"),
            block("branch", "branch"),
            block("schedule", "schedule"),
            block("digest", "llm"),
            block("notify-email", "notify"),
        ],
        wires: vec![
            wire("w1", ("watch", "file"), ("classify", "prompt")),
            wire("w2", ("classify", "text"), ("branch", "value")),
            wire("w3", ("schedule", "tick"), ("digest", "prompt")),
            wire("w4", ("digest", "text"), ("notify-email", "message")),
        ],
        frames: 1,
    }
}

/// Of six blocks only three are steps, and the model holds the two runtimes
/// through the Toolbox.
#[test]
fn the_triage_example_runs_three_of_its_six_blocks() {
    let plan = plan(&customer_triage(), &catalogue());
    assert_eq!(plan.order, ["input", "llm", "report"]);
    assert_eq!(plan.capabilities, ["python", "terminal", "toolbox"]);
    assert!(plan.problems.is_empty(), "{:?}", plan.problems);
}

/// The Toolbox is a bundle, so the model's tool list names the runtimes
/// behind it rather than the box in front of them.
#[test]
fn a_toolbox_is_transparent_to_the_model_holding_it() {
    let plan = plan(&customer_triage(), &catalogue());
    assert_eq!(plan.bound_to("llm").unwrap(), &["terminal", "python"]);
    // The Toolbox holds them too, but it is a capability, not a holder, so it
    // gets no entry of its own to be confused with the model's.
    assert!(plan.bound_to("toolbox").is_none());
}

/// A block with nowhere to send its result is still a step.
#[test]
fn a_block_with_no_wires_out_still_runs() {
    let mut graph = customer_triage();
    graph.wires.retain(|w| w.from.node != "terminal");
    let plan = plan(&graph, &catalogue());
    assert!(plan.order.contains(&"terminal".to_owned()));
    assert!(!plan.is_capability("terminal"));
}

/// A block that both answers calls and takes a turn is both.
#[test]
fn a_terminal_that_also_reports_is_a_step_as_well() {
    let mut graph = customer_triage();
    graph.wires.push(wire("w6", ("terminal", "stdout"), ("report", "value")));
    let plan = plan(&graph, &catalogue());
    assert!(!plan.is_capability("terminal"));
    assert!(plan.order.contains(&"terminal".to_owned()));
    // It is still bound to the model, which can still call it.
    assert!(plan.bound_to("llm").unwrap().contains(&"terminal".to_owned()));
    // And it is ordered before the block reading its output.
    let at = |id: &str| plan.order.iter().position(|b| b == id).unwrap();
    assert!(at("terminal") < at("report"));
}

/// A cycle is reported and the rest of the graph still runs; it takes
/// everything downstream of it along.
#[test]
fn a_cycle_takes_what_is_downstream_of_it() {
    let mut graph = customer_triage();
    graph.blocks.push(block("convert", "convert"));
    graph.wires.push(wire("w6", ("llm", "text"), ("convert", "value")));
    graph.wires.push(wire("w7", ("convert", "value"), ("llm", "prompt")));
    let plan = plan(&graph, &catalogue());
    assert_eq!(plan.order, ["input"]);
    let cycle = plan.problems.iter().find(|p| p.contains("cycle")).expect("the cycle is reported");
    for block in ["llm", "convert", "report"] {
        assert!(cycle.contains(block), "{cycle}");
    }
    assert_eq!(
        cycle,
        "blocks cannot be ordered: llm, report, convert form a cycle, and Once mode has no way through one"
    );
}

/// A holder cannot make itself hold its own handle, and trying does not take
/// the engine down with it.
#[test]
fn a_toolbox_wired_to_itself_terminates() {
    let mut graph = customer_triage();
    graph.wires.push(wire("w6", ("toolbox", "tools"), ("toolbox", "tools")));
    let plan = plan(&graph, &catalogue());
    assert_eq!(plan.bound_to("llm").unwrap(), &["terminal", "python"]);
}

/// A live graph runs the part of itself downstream of what just happened.
#[test]
fn an_event_sets_going_only_what_is_below_it() {
    let plan = plan(&inbox_triage(), &catalogue());
    let from_folder = plan.downstream_of("watch", "file");
    assert_eq!(from_folder, ["classify", "branch"]);
    let from_clock = plan.downstream_of("schedule", "tick");
    assert_eq!(from_clock, ["digest", "notify-email"]);
    assert!(plan.downstream_of("webhook", "body").is_empty());
}

/// Every source the graph holds, so the panel can list what is armed.
#[test]
fn the_plan_knows_which_blocks_are_sources() {
    assert_eq!(plan(&inbox_triage(), &catalogue()).sources(), &["webhook", "watch", "schedule"]);
    assert!(plan(&customer_triage(), &catalogue()).sources().is_empty());
}

/// A loop frame is named as something Once mode does not do.
#[test]
fn a_loop_frame_says_it_will_not_repeat_yet() {
    let plan = plan(&inbox_triage(), &catalogue());
    assert_eq!(
        plan.problems,
        ["1 loop frame will run once rather than repeating: frames arrive with live graphs"]
    );
}
