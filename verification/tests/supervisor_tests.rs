use littera_desktop::errors::SidecarError;
use littera_desktop::readiness::handshake;
use littera_desktop::supervisor::Supervisor;

/// Drive one full `open` against a canned transcript of worker output:
/// retire the old worker, register the spawn, resolve the readiness read.
fn open_with_transcript(sup: &mut Supervisor, lines: Vec<String>) -> Result<u16, SidecarError> {
    let _retired = sup.close();
    let _id = sup.register_launch();
    let outcome = handshake(&lines);
    sup.finish_open(outcome)
}

#[test]
fn scenario_first_line_ready() {
    let mut sup = Supervisor::new();
    let r = open_with_transcript(&mut sup, vec!["LITTERA_SIDECAR_READY:54321".to_string()]);
    assert_eq!(r, Ok(54321));
    assert_eq!(sup.port(), Ok(54321));
}

#[test]
fn scenario_diagnostics_then_ready() {
    let mut sup = Supervisor::new();
    let r = open_with_transcript(
        &mut sup,
        vec![
            "starting postgres...".to_string(),
            "postgres ready".to_string(),
            "LITTERA_SIDECAR_READY:8080".to_string(),
        ],
    );
    assert_eq!(r, Ok(8080));
    assert_eq!(sup.port(), Ok(8080));
    let retired = sup.close();
    assert!(retired.is_some());
    assert_eq!(retired.unwrap().port(), 8080);
    assert_eq!(sup.port(), Err(SidecarError::NotReady));
}

#[test]
fn scenario_exit_without_output() {
    let mut sup = Supervisor::new();
    let r = open_with_transcript(&mut sup, vec![]);
    assert_eq!(r, Err(SidecarError::ExitedBeforeReady));
    assert_eq!(sup.port(), Err(SidecarError::NotReady));
}

#[test]
fn scenario_malformed_port() {
    let mut sup = Supervisor::new();
    let r = open_with_transcript(
        &mut sup,
        vec!["LITTERA_SIDECAR_READY:notanumber".to_string()],
    );
    assert_eq!(r, Err(SidecarError::MalformedReadiness));
    assert_eq!(sup.port(), Err(SidecarError::NotReady));
}

#[test]
fn scenario_replacement_never_shows_two_workers() {
    let mut sup = Supervisor::new();
    let r = open_with_transcript(&mut sup, vec!["LITTERA_SIDECAR_READY:9000".to_string()]);
    assert_eq!(r, Ok(9000));
    assert_eq!(sup.port(), Ok(9000));

    // A second open, serialized behind the same lock: the old worker is
    // retired before the new readiness read ever starts, so the port of
    // the first worker is never reachable again once replacement begins.
    let retired = sup.close();
    assert!(retired.is_some());
    assert_eq!(retired.as_ref().unwrap().port(), 9000);
    assert_eq!(sup.port(), Err(SidecarError::NotReady));
    let _id = sup.register_launch();
    assert_eq!(sup.port(), Err(SidecarError::NotReady));
    let outcome = handshake(&vec!["LITTERA_SIDECAR_READY:7777".to_string()]);
    let r2 = sup.finish_open(outcome);
    assert_eq!(r2, Ok(7777));
    assert_eq!(sup.port(), Ok(7777));
}

#[test]
fn close_twice_is_not_an_error() {
    let mut sup = Supervisor::new();
    let r = open_with_transcript(&mut sup, vec!["LITTERA_SIDECAR_READY:4000".to_string()]);
    assert_eq!(r, Ok(4000));
    let first = sup.close();
    assert!(first.is_some());
    let second = sup.close();
    assert!(second.is_none());
    assert_eq!(sup.port(), Err(SidecarError::NotReady));
}

#[test]
fn port_errors_exactly_when_slot_empty() {
    let mut sup = Supervisor::new();
    assert_eq!(sup.port(), Err(SidecarError::NotReady));
    let r = open_with_transcript(&mut sup, vec!["LITTERA_SIDECAR_READY:5555".to_string()]);
    assert_eq!(r, Ok(5555));
    assert!(sup.port().is_ok());
    sup.close();
    assert_eq!(sup.port(), Err(SidecarError::NotReady));
}

#[test]
fn failed_open_leaves_slot_empty_and_worker_retired() {
    let mut sup = Supervisor::new();
    // Install a worker, then replace it with one that dies silently: the
    // failure must leave the slot empty, not fall back to the old worker.
    let r = open_with_transcript(&mut sup, vec!["LITTERA_SIDECAR_READY:6000".to_string()]);
    assert_eq!(r, Ok(6000));
    let r2 = open_with_transcript(&mut sup, vec!["some noise".to_string()]);
    assert_eq!(r2, Err(SidecarError::ExitedBeforeReady));
    assert_eq!(sup.port(), Err(SidecarError::NotReady));
}

#[test]
fn fresh_handles_get_distinct_tokens() {
    let mut sup = Supervisor::new();
    let r1 = open_with_transcript(&mut sup, vec!["LITTERA_SIDECAR_READY:1".to_string()]);
    assert_eq!(r1, Ok(1));
    let h1 = sup.close().unwrap();
    let r2 = open_with_transcript(&mut sup, vec!["LITTERA_SIDECAR_READY:2".to_string()]);
    assert_eq!(r2, Ok(2));
    let h2 = sup.close().unwrap();
    assert_ne!(h1.id(), h2.id());
}

#[test]
fn read_failure_retires_the_launch() {
    let mut sup = Supervisor::new();
    let _ = sup.close();
    let _id = sup.register_launch();
    let r = sup.finish_open(littera_desktop::readiness::HandshakeOutcome::ReadError);
    assert_eq!(r, Err(SidecarError::ReadFailed));
    assert_eq!(sup.port(), Err(SidecarError::NotReady));
}

#[test]
fn error_messages_match_the_protocol() {
    assert_eq!(SidecarError::NotReady.message(), "Sidecar not ready");
    assert_eq!(
        SidecarError::ExitedBeforeReady.message(),
        "Sidecar exited before signaling readiness"
    );
    assert_eq!(SidecarError::MalformedReadiness.message(), "Invalid port from sidecar");
    assert_eq!(
        SidecarError::InvalidWorkDir.message(),
        "Not a Littera work (no .littera/ directory)"
    );
}
