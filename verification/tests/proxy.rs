use portmap::app::{Mapping, MappingStatus};
use portmap::proxy::{filter_hop_headers, is_hop_by_hop, route_request, u16_to_string, Header, RouteDecision};

fn table_one() -> Vec<Mapping> {
    vec![Mapping { domain: "a.localhost".to_string(), port: 9000, status: MappingStatus::Unknown }]
}

#[test]
fn test_route_forwards_stripping_host_port() {
    let table = table_one();
    let r = route_request(Some("a.localhost:8080"), None, &table);
    assert_eq!(
        r,
        RouteDecision::Forward { port: 9000, uri: "http://127.0.0.1:9000/".to_string() }
    );
}

#[test]
fn test_route_unknown_host_is_not_found() {
    let table = table_one();
    let r = route_request(Some("b.localhost"), None, &table);
    assert_eq!(r, RouteDecision::NoMapping("b.localhost".to_string()));
}

#[test]
fn test_route_missing_host_is_bad_request() {
    let table = table_one();
    let r = route_request(None, Some("/x"), &table);
    assert_eq!(r, RouteDecision::MissingHost);
}

#[test]
fn test_route_keeps_path_and_query_and_folds_case() {
    let table = table_one();
    let r = route_request(Some("A.LocalHost:80"), Some("/api/v1?q=2"), &table);
    assert_eq!(
        r,
        RouteDecision::Forward { port: 9000, uri: "http://127.0.0.1:9000/api/v1?q=2".to_string() }
    );
}

#[test]
fn test_connection_header_not_forwarded_upstream() {
    let headers = vec![
        Header { name: "Connection".to_string(), value: "close".to_string() },
        Header { name: "Accept".to_string(), value: "*/*".to_string() },
    ];
    let kept = filter_hop_headers(&headers);
    assert_eq!(kept.len(), 1);
    assert_eq!(kept[0].name, "Accept");
}

#[test]
fn test_transfer_encoding_not_returned_to_client() {
    let headers = vec![
        Header { name: "Content-Type".to_string(), value: "text/plain".to_string() },
        Header { name: "Transfer-Encoding".to_string(), value: "chunked".to_string() },
        Header { name: "Upgrade".to_string(), value: "h2c".to_string() },
        Header { name: "KEEP-ALIVE".to_string(), value: "timeout=5".to_string() },
    ];
    let kept = filter_hop_headers(&headers);
    assert_eq!(kept.len(), 1);
    assert_eq!(kept[0].name, "Content-Type");
    assert_eq!(kept[0].value, "text/plain");
}

#[test]
fn test_hop_by_hop_names() {
    for name in [
        "connection",
        "keep-alive",
        "proxy-authenticate",
        "proxy-authorization",
        "te",
        "trailers",
        "transfer-encoding",
        "upgrade",
        "Connection",
        "TE",
    ] {
        assert!(is_hop_by_hop(name), "{name}");
    }
    assert!(!is_hop_by_hop("content-length"));
    assert!(!is_hop_by_hop("host"));
}

#[test]
fn test_port_text() {
    assert_eq!(u16_to_string(0), "0");
    assert_eq!(u16_to_string(80), "80");
    assert_eq!(u16_to_string(9000), "9000");
    assert_eq!(u16_to_string(65535), "65535");
}

#[test]
fn test_route_uses_first_match() {
    let table = vec![
        Mapping { domain: "a.localhost".to_string(), port: 9000, status: MappingStatus::Unknown },
        Mapping { domain: "a.localhost".to_string(), port: 9100, status: MappingStatus::Active },
    ];
    let r = route_request(Some("a.localhost"), None, &table);
    assert_eq!(
        r,
        RouteDecision::Forward { port: 9000, uri: "http://127.0.0.1:9000/".to_string() }
    );
}
