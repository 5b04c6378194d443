use tcplb::Addr;
use tcplb::WeightedAddr;
use tcplb::namerd::Update;
use tcplb::namerd::bytes_in;
use tcplb::namerd::decode;
use tcplb::namerd::emitted_set;
use tcplb::namerd::parse_ipv4;
use tcplb::namerd::outcome_of;
use tcplb::namerd::poll_outcome;
use tcplb::namerd::resolve_path;
use tcplb::namerd::to_buf;
use tcplb::namerd::PollOutcome;

fn body(s: &str) -> Vec<u8> {
    s.as_bytes().to_vec()
}

#[test]
fn decode_bound_single() {
    let b = body(r#"{"type":"bound","addrs":[{"ip":"127.0.0.1","port":9001,"meta":{}}]}"#);
    match decode(&b) {
        Ok(Update::Bound(v)) => {
            assert_eq!(v.len(), 1);
            assert_eq!(v[0].addr, Addr { ip: 0x7f000001, port: 9001 });
            assert_eq!(v[0].weight, 1000);
        }
        other => panic!("expected bound, got {:?}", other),
    }
}

#[test]
fn decode_negative() {
    let b = body(r#"{"type":"neg"}"#);
    assert_eq!(decode(&b).unwrap(), Update::Negative);
}

#[test]
fn decode_unknown_type_is_empty_update() {
    let b = body(r#"{"type":"partial","addrs":[]}"#);
    assert_eq!(decode(&b).unwrap(), Update::Unknown);
}

#[test]
fn decode_malformed_fails() {
    assert!(decode(&body("not json")).is_err());
    assert!(decode(&body(r#"{"addrs":[]}"#)).is_err(), "type is required");
    assert!(decode(&body(r#"{"type":"bound""#)).is_err(), "unterminated");
    assert!(decode(&body(r#"{"type":"bound"} x"#)).is_err(), "trailing bytes");
}

#[test]
fn decode_invalid_ip_fails_whole_response() {
    let b = body(r#"{"type":"bound","addrs":[{"ip":"999.0.0.1","port":80,"meta":{}}]}"#);
    assert!(decode(&b).is_err());
}

#[test]
fn decode_port_out_of_range_fails() {
    let b = body(r#"{"type":"bound","addrs":[{"ip":"10.0.0.1","port":70000,"meta":{}}]}"#);
    assert!(decode(&b).is_err());
}

#[test]
fn decode_weight_fixed_point() {
    let b = body(
        r#"{"type":"bound","addrs":[{"ip":"10.0.0.1","port":80,"meta":{"endpoint_addr_weight":3.25}}]}"#,
    );
    match decode(&b).unwrap() {
        Update::Bound(v) => assert_eq!(v[0].weight, 3250),
        other => panic!("expected bound, got {:?}", other),
    }
}

#[test]
fn decode_weight_defaults_to_one() {
    let b = body(
        r#"{"type":"bound","addrs":[{"ip":"10.0.0.1","port":80,"meta":{"authority":"x"}}]}"#,
    );
    match decode(&b).unwrap() {
        Update::Bound(v) => assert_eq!(v[0].weight, 1000),
        other => panic!("expected bound, got {:?}", other),
    }
}

#[test]
fn decode_skips_unknown_members() {
    let b = body(
        r#" { "meta": {"x": [1, 2, {"y": null}]}, "type": "bound",
             "addrs": [ {"extra": true, "ip": "192.168.0.10", "port": 8080,
                         "meta": {"nodeName": "n1", "endpoint_addr_weight": 2.0}} ] } "#,
    );
    match decode(&b).unwrap() {
        Update::Bound(v) => {
            assert_eq!(v.len(), 1);
            assert_eq!(v[0].addr, Addr { ip: 0xc0a8000a, port: 8080 });
            assert_eq!(v[0].weight, 2000);
        }
        other => panic!("expected bound, got {:?}", other),
    }
}

#[test]
fn ipv4_parsing() {
    assert_eq!(parse_ipv4(&body("127.0.0.1")), Some(0x7f000001));
    assert_eq!(parse_ipv4(&body("255.255.255.255")), Some(0xffffffff));
    assert_eq!(parse_ipv4(&body("0.0.0.0")), Some(0));
    assert_eq!(parse_ipv4(&body("256.0.0.1")), None);
    assert_eq!(parse_ipv4(&body("01.0.0.1")), None, "leading zero");
    assert_eq!(parse_ipv4(&body("1.2.3")), None, "too few octets");
    assert_eq!(parse_ipv4(&body("1.2.3.4.5")), None, "too many octets");
    assert_eq!(parse_ipv4(&body("1.2.3.x")), None);
    assert_eq!(parse_ipv4(&body("")), None);
}

#[test]
fn resolve_path_escapes_target() {
    let p = resolve_path(&body("internal"), &body("/svc/foo"));
    assert_eq!(p, body("/api/1/resolve/internal?path=%2fsvc%2ffoo"));
}

#[test]
fn resolve_path_keeps_unreserved() {
    let p = resolve_path(&body("default"), &body("web_1.x-y~z"));
    assert_eq!(p, body("/api/1/resolve/default?path=web_1.x-y~z"));
}

#[test]
fn chunks_concatenate_in_order() {
    let chunks = vec![body("ab"), body(""), body("cde"), body("f")];
    assert_eq!(bytes_in(&chunks), 6);
    assert_eq!(to_buf(&chunks), body("abcdef"));
}

#[test]
fn poll_outcomes() {
    let good = body(r#"{"type":"neg"}"#);
    match poll_outcome(true, Some(&good)) {
        PollOutcome::Emit(u) => assert_eq!(u, Update::Negative),
        PollOutcome::NoUpdate(e) => panic!("expected emit, got {:?}", e),
    }
    assert!(matches!(poll_outcome(false, Some(&good)), PollOutcome::NoUpdate(_)));
    assert!(matches!(poll_outcome(true, None), PollOutcome::NoUpdate(_)));
    let bad = body("{");
    assert!(matches!(poll_outcome(true, Some(&bad)), PollOutcome::NoUpdate(_)));
}

#[test]
fn emitted_sets() {
    let wa = WeightedAddr { addr: Addr { ip: 1, port: 1 }, weight: 1000 };
    assert_eq!(emitted_set(Update::Bound(vec![wa])), vec![wa]);
    assert_eq!(emitted_set(Update::Negative), Vec::new());
    assert_eq!(emitted_set(Update::Unknown), Vec::new());
}

#[test]
fn octets_compose_the_address() {
    let a = tcplb::Addr::from_octets(10, 1, 2, 3, 4180);
    assert_eq!(a.port, 4180);
    assert_eq!(parse_ipv4(&body("10.1.2.3")), Some(a.ip));
    assert_eq!(tcplb::Addr::new(a.ip, 4180), a);
}

#[test]
fn outcome_judgement_is_exact() {
    let ok = || Some(Ok(Update::Negative));
    assert!(matches!(outcome_of(true, ok()), PollOutcome::Emit(Update::Negative)));
    assert!(matches!(outcome_of(false, ok()), PollOutcome::NoUpdate(_)));
    assert!(matches!(outcome_of(true, None), PollOutcome::NoUpdate(_)));
    let err = Some(Err(tcplb::namerd::NamerdError("bad".to_string())));
    assert!(matches!(outcome_of(true, err), PollOutcome::NoUpdate(_)));
}

#[test]
fn decode_handles_string_escapes_in_skipped_members() {
    let b = body(
        r#"{"note":"a \"quoted\" \\ value","type":"neg"}"#,
    );
    assert_eq!(decode(&b).unwrap(), Update::Negative);
    let unicode = body("{\"note\":\"\\u0041\",\"type\":\"neg\"}");
    assert!(decode(&unicode).is_err(), "unicode escapes fail the response");
}

#[test]
fn decode_rejects_trailing_comma() {
    assert!(decode(&body(r#"{"type":"neg",}"#)).is_err());
    let b = body(r#"{"type":"bound","addrs":[{"ip":"10.0.0.1","port":80,"meta":{}},]}"#);
    assert!(decode(&b).is_err());
}

#[test]
fn decode_requires_meta_on_each_address() {
    let b = body(r#"{"type":"bound","addrs":[{"ip":"10.0.0.1","port":80}]}"#);
    assert!(decode(&b).is_err(), "meta is a required member");
}

#[test]
fn decode_negative_weight_fails() {
    let b = body(
        r#"{"type":"bound","addrs":[{"ip":"10.0.0.1","port":80,"meta":{"endpoint_addr_weight":-1.0}}]}"#,
    );
    assert!(decode(&b).is_err());
}
