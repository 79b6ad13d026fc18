use loomd::run::graph::{Block, Catalogue, Endpoint, Graph, Kind, Port, PortType, Side, Wire};
use loomd::run::live::{absorb, count_errors, firing, held_by, live_turn, nothing_armed, queue_full, Firing, LiveAction, Overlap, OverlapPolicy, Queued, Tally};
use loomd::run::plan::plan;

/// Drive `absorb` directly: the policies are arithmetic on a queue, and
/// pinning them down needs no threads.
fn absorb_all(overlap: Overlap, events: Vec<Queued<()>>) -> (Vec<String>, Tally, Vec<String>) {
    let mut queue = Vec::new();
    let mut tally = Tally::default();
    let refused = absorb(&overlap, &mut queue, &mut tally, events);
    (queue.iter().map(|f| f.node.clone()).collect(), tally, refused)
}

fn burst(names: &[&str], apart_ms: u64) -> Vec<Queued<()>> {
    names
        .iter()
        .enumerate()
        .map(|(i, n)| Queued { node: n.to_string(), at_ms: apart_ms * i as u64, item: () })
        .collect()
}

fn overlap(policy: OverlapPolicy, max_queue: u32, coalesce_ms: u32) -> Overlap {
    Overlap { policy, max_queue, coalesce_ms, loop_parallel: 2 }
}

/// Queue keeps them in order and stops at its maximum.
#[test]
fn queue_holds_up_to_its_maximum_and_says_when_it_drops() {
    let (kept, tally, refused) =
        absorb_all(overlap(OverlapPolicy::Queue, 3, 0), burst(&["a", "b", "c", "d", "e"], 10));
    assert_eq!(kept, ["a", "b", "c"]);
    assert_eq!(tally.dropped, 2);
    assert_eq!(refused, ["d", "e"]);
    assert_eq!(queue_full(3), "queue is full at 3; dropped an event");
}

/// Drop newest keeps what is already waiting and refuses the rest.
#[test]
fn drop_newest_keeps_the_first() {
    let (kept, tally, refused) =
        absorb_all(overlap(OverlapPolicy::DropNewest, 10, 0), burst(&["a", "b", "c"], 10));
    assert_eq!(kept, ["a"]);
    assert_eq!(tally.dropped, 2);
    assert!(refused.is_empty(), "only a full queue says so as it happens");
}

/// Drop oldest keeps the freshest, which is what a graph watching a
/// changing world usually wants.
#[test]
fn drop_oldest_keeps_the_last() {
    let (kept, tally, _) =
        absorb_all(overlap(OverlapPolicy::DropOldest, 2, 0), burst(&["a", "b", "c", "d"], 10));
    assert_eq!(kept, ["c", "d"]);
    assert_eq!(tally.dropped, 2);
}

/// Coalesce turns a burst from one source into the last of it: a file
/// saved four times in a second is one thing that happened.
#[test]
fn coalesce_merges_a_burst_from_one_source() {
    let (kept, tally, _) =
        absorb_all(overlap(OverlapPolicy::Coalesce, 10, 500), burst(&["watch", "watch", "watch"], 50));
    assert_eq!(kept, ["watch"]);
    assert_eq!(tally.dropped, 2);
}

/// Two sources are two things happening, however close together.
#[test]
fn coalesce_does_not_merge_across_sources() {
    let (kept, _, _) =
        absorb_all(overlap(OverlapPolicy::Coalesce, 10, 500), burst(&["watch", "webhook", "watch"], 10));
    assert_eq!(kept, ["watch", "webhook", "watch"]);
}

/// Outside the window they are separate events again.
#[test]
fn coalesce_leaves_events_further_apart_alone() {
    let (kept, tally, _) =
        absorb_all(overlap(OverlapPolicy::Coalesce, 10, 100), burst(&["watch", "watch"], 400));
    assert_eq!(kept, ["watch", "watch"]);
    assert_eq!(tally.dropped, 0);
}

#[test]
fn a_queue_of_no_maximum_still_holds_one() {
    let (kept, tally, _) = absorb_all(overlap(OverlapPolicy::Queue, 0, 0), burst(&["a", "b"], 10));
    assert_eq!(kept, ["a"]);
    assert_eq!(tally.dropped, 1);
    let (kept, _, _) = absorb_all(overlap(OverlapPolicy::DropOldest, 0, 0), burst(&["a", "b"], 10));
    assert_eq!(kept, ["b"]);
}

/// Nothing that arrives is lost without being counted.
#[test]
fn what_is_kept_and_what_is_dropped_add_up_to_what_arrived() {
    for policy in [OverlapPolicy::Queue, OverlapPolicy::DropNewest, OverlapPolicy::DropOldest, OverlapPolicy::Coalesce] {
        let (kept, tally, _) = absorb_all(overlap(policy, 2, 100), burst(&["a", "a", "b", "a", "b"], 30));
        assert_eq!(kept.len() as u32 + tally.dropped, 5, "{policy:?}");
        assert!(kept.len() <= 2 || policy == OverlapPolicy::Coalesce, "{policy:?}");
    }
}

fn camera_graph() -> (Graph, Catalogue) {
    let port = |name: &str, side: Side, port_type: PortType| Port { name: name.into(), side, port_type };
    let kind = |id: &str, source: bool, ports: Vec<Port>| Kind { id: id.into(), source, ports };
    let cat = Catalogue {
        kinds: vec![
            kind("webcam", true, vec![port("frame", Side::Out, PortType::Image)]),
            kind("detect", false, vec![port("image", Side::In, PortType::Image), port("found", Side::Out, PortType::Data)]),
            kind("report", false, vec![port("value", Side::In, PortType::Any)]),
        ],
    };
    let block = |id: &str, kind: &str| Block { id: id.into(), kind: kind.into(), ports: Vec::new() };
    let wire = |id: &str, from: (&str, &str), to: (&str, &str)| Wire {
        id: id.into(),
        from: Endpoint::new(from.0, from.1),
        to: Endpoint::new(to.0, to.1),
    };
    let g = Graph {
        id: "door".into(),
        blocks: vec![block("camera", "webcam"), block("detect", "detect"), block("report", "report"), block("spare", "webcam")],
        wires: vec![wire("w1", ("camera", "frame"), ("detect", "image")), wire("w2", ("detect", "found"), ("report", "value"))],
        frames: 0,
    };
    (g, cat)
}

/// A live graph runs the part of itself below what fired, and a device that
/// is read goes at the head of its own run.
#[test]
fn an_event_runs_what_is_below_it_and_a_read_device_leads() {
    let (g, cat) = camera_graph();
    let p = plan(&g, &cat);
    match firing(&p, "camera", "frame", true) {
        Firing::Run { steps, says } => {
            assert_eq!(steps, ["camera", "detect", "report"]);
            assert_eq!(says, "frame → detect → report");
        }
        Firing::Nowhere(w) => panic!("{w}"),
    }
    match firing(&p, "camera", "frame", false) {
        Firing::Run { steps, .. } => assert_eq!(steps, ["detect", "report"]),
        Firing::Nowhere(w) => panic!("{w}"),
    }
    match firing(&p, "spare", "frame", true) {
        Firing::Nowhere(w) => assert_eq!(w, "spare.frame is wired to nothing"),
        Firing::Run { .. } => panic!("nothing is below the spare camera"),
    }
}

/// A camera that is not there holds the graph once, rather than flooding
/// the console at its tick rate.
#[test]
fn a_device_that_cannot_be_read_holds_the_graph_once() {
    assert_eq!(
        held_by("camera", true, false, false).as_deref(),
        Some("camera could not be read, so the graph is held. Resume to try again.")
    );
    assert_eq!(held_by("camera", true, false, true), None, "already held: said once");
    assert_eq!(held_by("camera", true, true, false), None);
    assert_eq!(held_by("watch", false, false, false), None, "a source that hands something over is never a fault");
}

fn ev(node: &str, at_ms: u64) -> Queued<u8> {
    Queued { node: node.to_string(), at_ms, item: 0 }
}

/// The loop takes the oldest event and counts it; a held graph keeps its
/// queue; a stop ends it; a graph with nothing armed says so.
#[test]
fn the_live_loop_fires_the_oldest_waits_when_held_and_ends_when_stopped() {
    let mut queue = vec![ev("cam", 1), ev("cam", 2)];
    let mut tally = Tally::default();
    assert!(matches!(live_turn(false, true, &mut queue, &mut tally), LiveAction::Wait));
    assert_eq!(queue.len(), 2);
    match live_turn(false, false, &mut queue, &mut tally) {
        LiveAction::Fire(e) => assert_eq!(e.at_ms, 1),
        _ => panic!("the oldest event fires"),
    }
    assert_eq!(tally.events, 1);
    assert!(matches!(live_turn(true, false, &mut queue, &mut tally), LiveAction::Finish));
    assert_eq!(queue.len(), 1);
    count_errors(&mut tally, 2);
    assert_eq!(tally.errors, 2);
    let mut empty: Vec<Queued<u8>> = Vec::new();
    assert!(matches!(live_turn(false, false, &mut empty, &mut tally), LiveAction::Wait));
    assert_eq!(nothing_armed(0), Some("nothing is armed: a live graph needs a source"));
    assert_eq!(nothing_armed(2), None);
}
