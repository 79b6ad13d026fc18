use loomd::run::runner::Decision;
use loomd::rpc::{Acknowledged, RpcError};
use loomd::session::Session;
use loomd::workspace::Workspace;
use loomd::Engine;

fn engine() -> Engine {
    Engine::new(Workspace::open("/srv/w", true, Ok("/srv/w".into())).unwrap())
}

#[test]
fn reports_what_it_is_serving() {
    let status = engine().status("0.1.0", 3, 40);
    assert_eq!(status.version, "0.1.0");
    assert_eq!(status.workspace, "/srv/w");
    assert_eq!(status.graphs, 3);
    assert_eq!(status.kinds, 40);
    assert_eq!(engine().workspace().root(), "/srv/w");
}

#[test]
fn stopping_and_pausing_say_how_many_runs_they_reached() {
    let e = engine();
    let mut session = Session::new();
    let a = session.start().unwrap();
    let _b = session.start().unwrap();
    assert_eq!(e.pause(&mut session, Some(&a), true), Acknowledged { ok: true, count: 1 });
    assert_eq!(e.pause(&mut session, None, false), Acknowledged { ok: true, count: 2 });
    let (ack, woken) = e.stop(&mut session, None);
    assert_eq!(ack, Acknowledged { ok: true, count: 2 });
    assert!(woken.is_empty());
    assert_eq!(e.stop(&mut session, Some("run-9")).0.count, 0);
}

#[test]
fn a_second_answer_to_a_warning_is_not_an_error() {
    let e = engine();
    let mut session = Session::new();
    let run = session.start().unwrap();
    let id = match session.ask(&run) {
        loomd::session::Asked::Parked(id) => id,
        other => panic!("{other:?}"),
    };
    assert_eq!(e.answer(&mut session, &id, Decision::Stop), Acknowledged { ok: true, count: 1 });
    assert_eq!(e.answer(&mut session, &id, Decision::Continue), Acknowledged { ok: false, count: 0 });
    assert_eq!(session.take_answer(&id), Some(Decision::Stop));
}

#[test]
fn an_error_reply_carries_its_code_and_words() {
    let err = RpcError::new("workspace", "`../x` leaves the workspace".into());
    assert_eq!(err.code, "workspace");
    assert_eq!(err.message, "`../x` leaves the workspace");
}
