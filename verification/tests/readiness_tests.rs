use littera_desktop::readiness::classify_line;
use littera_desktop::readiness::handshake;
use littera_desktop::readiness::parse_port;
use littera_desktop::readiness::HandshakeOutcome;
use littera_desktop::readiness::LineClass;

#[test]
fn sentinel_with_port_is_ready() {
    assert_eq!(
        classify_line("LITTERA_SIDECAR_READY:54321"),
        LineClass::Ready(54321)
    );
}

#[test]
fn sentinel_payload_is_trimmed() {
    assert_eq!(
        classify_line("LITTERA_SIDECAR_READY: 8080 "),
        LineClass::Ready(8080)
    );
    assert_eq!(
        classify_line("LITTERA_SIDECAR_READY:\t443\r"),
        LineClass::Ready(443)
    );
}

#[test]
fn sentinel_bounds_of_port_range() {
    assert_eq!(
        classify_line("LITTERA_SIDECAR_READY:0"),
        LineClass::Ready(0)
    );
    assert_eq!(
        classify_line("LITTERA_SIDECAR_READY:65535"),
        LineClass::Ready(65535)
    );
    assert_eq!(classify_line("LITTERA_SIDECAR_READY:65536"), LineClass::Malformed);
}

#[test]
fn sentinel_with_bad_payload_is_malformed() {
    assert_eq!(
        classify_line("LITTERA_SIDECAR_READY:notanumber"),
        LineClass::Malformed
    );
    assert_eq!(classify_line("LITTERA_SIDECAR_READY:"), LineClass::Malformed);
    assert_eq!(classify_line("LITTERA_SIDECAR_READY:12a"), LineClass::Malformed);
    assert_eq!(classify_line("LITTERA_SIDECAR_READY:-1"), LineClass::Malformed);
    assert_eq!(
        classify_line("LITTERA_SIDECAR_READY:99999999999999999999"),
        LineClass::Malformed
    );
}

#[test]
fn other_lines_are_diagnostic() {
    assert_eq!(classify_line(""), LineClass::Diagnostic);
    assert_eq!(classify_line("starting postgres"), LineClass::Diagnostic);
    assert_eq!(classify_line("LITTERA_SIDECAR_READY"), LineClass::Diagnostic);
    assert_eq!(classify_line("xLITTERA_SIDECAR_READY:80"), LineClass::Diagnostic);
    assert_eq!(classify_line("littera_sidecar_ready:80"), LineClass::Diagnostic);
}

#[test]
fn parse_port_accepts_leading_zeros() {
    assert_eq!(parse_port("0080"), Some(80));
    assert_eq!(parse_port("00000000000065535"), Some(65535));
}

#[test]
fn parse_port_rejects_junk() {
    assert_eq!(parse_port(""), None);
    assert_eq!(parse_port("   "), None);
    assert_eq!(parse_port("+80"), None);
    assert_eq!(parse_port("80 80"), None);
}

#[test]
fn handshake_takes_first_decisive_line() {
    let lines = vec![
        "warming up".to_string(),
        "LITTERA_SIDECAR_READY:3131".to_string(),
        "LITTERA_SIDECAR_READY:9999".to_string(),
    ];
    assert_eq!(handshake(&lines), HandshakeOutcome::Ready(3131));
}

#[test]
fn handshake_stops_at_malformed_signal() {
    let lines = vec![
        "warming up".to_string(),
        "LITTERA_SIDECAR_READY:bogus".to_string(),
        "LITTERA_SIDECAR_READY:1234".to_string(),
    ];
    assert_eq!(handshake(&lines), HandshakeOutcome::Malformed);
}

#[test]
fn handshake_of_only_diagnostics_is_stream_end() {
    let lines = vec!["a".to_string(), "b".to_string()];
    assert_eq!(handshake(&lines), HandshakeOutcome::StreamEnded);
    assert_eq!(handshake(&vec![]), HandshakeOutcome::StreamEnded);
}
