use loomd::run::actuate::{reading, Reading, Reply};

#[test]
fn a_controller_that_reports_a_fault_is_understood_as_one() {
    let Reading::Fault(reply) = reading("fault stalled at -31") else {
        panic!("a fault is a fault");
    };
    assert_eq!(reply.fault.as_deref(), Some("stalled at -31"));
    assert!(reply.text.contains("stalled at -31"));
    let Reading::Fault(bare) = reading("  FAULT ") else { panic!("a fault is a fault") };
    assert_eq!(bare.fault.as_deref(), Some("fault"), "a fault that gives no reason is still one");
}

#[test]
fn anything_else_the_device_says_is_passed_through() {
    let Reading::Passed(reply) = reading("calibrating, hold on") else {
        panic!("passed through");
    };
    assert_eq!(reply.text, "calibrating, hold on");
    assert!(reply.state.is_none() && reply.fault.is_none());
}

/// Silence from a controller that took the command is a controller that
/// took it; a position report is left for its numbers to be read.
#[test]
fn silence_and_ok_mean_the_command_was_taken() {
    for said in ["", "ok", "OK", "  ok  "] {
        assert_eq!(reading(said), Reading::Took, "for {said:?}");
    }
    assert_eq!(reading("at -40 0"), Reading::At("-40 0".into()));
}

#[test]
fn a_reply_is_built_up_from_what_was_said() {
    let r = Reply::said("moved".into()).with_state("pan 0° · tilt 0°".into()).faulted("end stop".into());
    assert_eq!(r, Reply { text: "moved".into(), state: Some("pan 0° · tilt 0°".into()), fault: Some("end stop".into()) });
}
