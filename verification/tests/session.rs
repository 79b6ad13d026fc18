use loomd::run::runner::Decision;
use loomd::session::{provider_for, Asked, Provider, Session};

/// A shell that hangs up mid-warning leaves the run waiting on nobody. It
/// stops rather than running the command unasked.
#[test]
fn a_vanished_shell_means_stop() {
    let mut session = Session::new();
    // No run registered: the same shape as a run whose session is gone.
    assert_eq!(session.ask("gone"), Asked::Decided(Decision::Stop));
}

#[test]
fn runs_are_numbered_and_never_share_an_id() {
    let mut session = Session::new();
    let a = session.start().unwrap();
    let b = session.start().unwrap();
    assert_eq!(a, "run-1");
    assert_eq!(b, "run-2");
    assert_eq!(session.running(), ["run-1", "run-2"]);
}

#[test]
fn a_warning_is_answered_by_its_id() {
    let mut session = Session::new();
    let run = session.start().unwrap();
    let Asked::Parked(id) = session.ask(&run) else {
        panic!("a run the session knows is asked, not decided");
    };
    assert_eq!(id, "run-1-w2");
    assert_eq!(session.take_answer(&id), None, "nobody has answered yet");
    assert!(session.answer(&id, Decision::ContinueAlways));
    assert_eq!(session.take_answer(&id), Some(Decision::ContinueAlways));
    assert_eq!(session.take_answer(&id), None, "an answer is read once");
    // Answering it twice is a no-op, which is what a second click looks like
    // rather than an error.
    assert!(!session.answer(&id, Decision::Continue));
    assert_eq!(session.take_answer(&id), None);
}

/// Stopping a run that is parked on a warning has to wake it, or the run
/// waits forever for an answer nobody will send.
#[test]
fn stopping_hands_back_the_warnings_a_run_was_parked_on() {
    let mut session = Session::new();
    let run = session.start().unwrap();
    let other = session.start().unwrap();
    let Asked::Parked(id) = session.ask(&run) else { panic!("parked") };
    let (stopped, woken) = session.stop(Some(&run));
    assert_eq!(stopped, 1);
    assert_eq!(woken, [id.clone()]);
    assert_eq!(session.take_answer(&id), Some(Decision::Stop), "a woken run reads Stop");
    assert!(!session.answer(&id, Decision::Continue), "a woken warning is answered already");
    assert_eq!(session.hold(Some(&other), true), 1);
    assert_eq!(session.stop(None).0, 2);
}

#[test]
fn a_finished_run_is_forgotten() {
    let mut session = Session::new();
    let run = session.start().unwrap();
    session.forget(&run);
    assert!(session.running().is_empty());
    assert_eq!(session.stop(Some(&run)).0, 0);
    assert_eq!(session.ask(&run), Asked::Decided(Decision::Stop));
}

#[test]
fn an_unknown_provider_is_named() {
    let Err(err) = provider_for("openai", &Vec::new()) else {
        panic!("openai is not a provider this engine has");
    };
    assert!(err.message.contains("openai"), "{}", err.message);
    assert!(err.message.contains("ollama"), "{}", err.message);
    assert_eq!(err.code, "provider");
}

/// A block's own endpoint wins over the graph default, and a blank one is
/// no endpoint at all.
#[test]
fn the_first_model_block_that_names_an_endpoint_picks_it() {
    let endpoints = vec![None, Some("  ".to_string()), Some("http://box:11434".to_string()), Some("http://other".to_string())];
    assert_eq!(
        provider_for("ollama", &endpoints),
        Ok(Provider::Ollama { endpoint: Some("http://box:11434".into()) })
    );
    assert_eq!(provider_for("ollama", &vec![None]), Ok(Provider::Ollama { endpoint: None }));
}
