use rust_tcp_server::acceptor::{accept_step, bind_step, AcceptAction, AcceptorMode, BindReport};

#[test]
fn successful_bind_starts_accepting() {
    let (report, mode) = bind_step(Ok(()));
    assert!(matches!(report, BindReport::Listening));
    assert_eq!(mode, AcceptorMode::Accepting);
}

#[test]
fn failed_bind_reports_and_never_accepts() {
    let (report, mode) = bind_step(Err(String::from("address already in use")));
    match report {
        BindReport::Failed(msg) => assert_eq!(msg, "address already in use"),
        BindReport::Listening => panic!("a failed bind must not report listening"),
    }
    assert_eq!(mode, AcceptorMode::Stopped);
}

#[test]
fn accept_error_keeps_listening() {
    let (action, mode) = accept_step(false);
    assert!(matches!(action, AcceptAction::LogAndContinue));
    assert_eq!(mode, AcceptorMode::Accepting);
}

#[test]
fn accepted_connection_gets_a_handler() {
    let (action, mode) = accept_step(true);
    assert!(matches!(action, AcceptAction::SpawnHandler));
    assert_eq!(mode, AcceptorMode::Accepting);
}
