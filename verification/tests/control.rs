use portmap::app::{Mapping, MappingStatus, TuiState};
use portmap::error::PortmapError;
use portmap::input::{parse_port, validate_input};
use portmap::routing::{
    has_mapping, probe_status, with_mapping_added, with_mapping_removed, with_statuses_applied,
};

fn state_with(domain: &str, port: &str) -> TuiState {
    let mut s = TuiState::new();
    s.domain_input = domain.to_string();
    s.port_input = port.to_string();
    s
}

#[test]
fn test_validate_accepts_and_lowercases() {
    let m = validate_input(&state_with(" My-App ", "9000")).unwrap();
    assert_eq!(m.domain, "my-app.localhost");
    assert_eq!(m.port, 9000);
    assert_eq!(m.status, MappingStatus::Unknown);
}

#[test]
fn test_validate_empty_domain() {
    let e = validate_input(&state_with("   ", "9000")).unwrap_err();
    assert_eq!(e, "Domain cannot be empty");
}

#[test]
fn test_validate_bad_domain_character() {
    let e = validate_input(&state_with("my app", "9000")).unwrap_err();
    assert_eq!(e, "Domain can only contain letters, numbers, and hyphens");
}

#[test]
fn test_validate_edge_hyphens() {
    let e = validate_input(&state_with("-app", "9000")).unwrap_err();
    assert_eq!(e, "Domain cannot start or end with a hyphen");
    let e = validate_input(&state_with("app-", "9000")).unwrap_err();
    assert_eq!(e, "Domain cannot start or end with a hyphen");
}

#[test]
fn test_validate_unparseable_port() {
    let e = validate_input(&state_with("app", "90x0")).unwrap_err();
    assert_eq!(e, "Port must be a number between 1 and 65535");
    let e = validate_input(&state_with("app", "65536")).unwrap_err();
    assert_eq!(e, "Port must be a number between 1 and 65535");
}

#[test]
fn test_validate_port_zero() {
    let e = validate_input(&state_with("app", "0")).unwrap_err();
    assert_eq!(e, "Port must be between 1 and 65535");
}

#[test]
fn test_parse_port_edges() {
    assert_eq!(parse_port("80"), Some(80));
    assert_eq!(parse_port("+80"), Some(80));
    assert_eq!(parse_port("0065535"), Some(65535));
    assert_eq!(parse_port("65536"), None);
    assert_eq!(parse_port(""), None);
    assert_eq!(parse_port("+"), None);
    assert_eq!(parse_port("12a"), None);
    assert_eq!(parse_port("999999999999999999"), None);
}

#[test]
fn test_tui_state_new() {
    let s = TuiState::new();
    assert_eq!(s.selected, 0);
    assert!(s.domain_input.is_empty());
    assert!(s.port_input.is_empty());
    assert!(s.status_message.is_none());
}

#[test]
fn test_error_messages() {
    assert_eq!(PortmapError::NotRoot.message(), "Must run as root (sudo portmap)");
    assert_eq!(
        PortmapError::DuplicateMapping("x.localhost".to_string()).message(),
        "Mapping already exists for x.localhost"
    );
    assert_eq!(
        PortmapError::ProxyBind("denied".to_string()).message(),
        "Failed to bind to port 80: denied"
    );
}

#[test]
fn test_status_labels() {
    assert_eq!(MappingStatus::Active.label(), "Active");
    assert_eq!(MappingStatus::PortUnreachable.label(), "Port Unreachable");
    assert_eq!(MappingStatus::Unknown.label(), "Unknown");
}

fn mapping(domain: &str, port: u16) -> Mapping {
    Mapping { domain: domain.to_string(), port, status: MappingStatus::Unknown }
}

#[test]
fn test_snapshot_add_remove_lookup() {
    let t0: Vec<Mapping> = Vec::new();
    let t1 = with_mapping_added(&t0, mapping("a.localhost", 9000));
    let t2 = with_mapping_added(&t1, mapping("b.localhost", 9001));
    assert_eq!(t2.len(), 2);
    assert!(has_mapping(&t2, "a.localhost"));
    assert!(!has_mapping(&t2, "c.localhost"));
    let t3 = with_mapping_removed(&t2, 0);
    assert_eq!(t3.len(), 1);
    assert_eq!(t3[0].domain, "b.localhost");
    // The older snapshots are untouched by later changes
    assert_eq!(t2.len(), 2);
    assert_eq!(t1.len(), 1);
}

#[test]
fn test_statuses_applied_wholesale() {
    let t = vec![mapping("a.localhost", 9000), mapping("b.localhost", 9001)];
    let (t2, changed) = with_statuses_applied(
        &t,
        &vec![MappingStatus::Active, MappingStatus::Unknown],
    );
    assert!(changed);
    assert_eq!(t2[0].status, MappingStatus::Active);
    assert_eq!(t2[1].status, MappingStatus::Unknown);
    assert_eq!(t2[0].domain, "a.localhost");
    let (_, changed_again) = with_statuses_applied(
        &t2,
        &vec![MappingStatus::Active, MappingStatus::Unknown],
    );
    assert!(!changed_again);
}

#[test]
fn test_probe_status() {
    assert_eq!(probe_status(true), MappingStatus::Active);
    assert_eq!(probe_status(false), MappingStatus::PortUnreachable);
}

#[test]
fn test_readers_keep_complete_generations() {
    // A reader holding an older snapshot keeps one complete generation of
    // the list while the writer publishes replacements.
    let (tx, rx) = tokio::sync::watch::channel::<Vec<Mapping>>(Vec::new());
    let rx2 = rx.clone();
    let gen1 = vec![mapping("a.localhost", 9000)];
    tx.send(gen1.clone()).unwrap();
    let held: Vec<Mapping> = rx.borrow().clone();
    let gen2 = vec![mapping("a.localhost", 9000), mapping("b.localhost", 9001)];
    tx.send(gen2.clone()).unwrap();
    assert_eq!(held, gen1);
    assert_eq!(*rx.borrow(), gen2);
    assert_eq!(*rx2.borrow(), gen2);
}
