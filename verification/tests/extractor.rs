use traefik_http_provider::{extract_traefik_config, TraefikedContainerConfig};

fn labels(pairs: &[(&str, &str)]) -> Vec<(String, String)> {
    pairs.iter().map(|(k, v)| (k.to_string(), v.to_string())).collect()
}

#[test]
fn test_no_router_labels_yields_none() {
    let l = labels(&[
        ("some.other.label", "x"),
        ("routing.http.services.web.loadbalancer.server.port", "80"),
    ]);
    assert!(extract_traefik_config(&l).is_none());
}

#[test]
fn test_empty_labels_yields_none() {
    let l = labels(&[]);
    assert!(extract_traefik_config(&l).is_none());
}

#[test]
fn test_single_router_label() {
    let l = labels(&[("routing.http.routers.web.rule", "Host(`a.com`)")]);
    match extract_traefik_config(&l) {
        Some(TraefikedContainerConfig::SinglePort(c)) => {
            assert_eq!(c.router_name, "web");
            assert_eq!(c.rule, "Host(`a.com`)");
        }
        other => panic!("expected a single-port config, got {:?}", other),
    }
}

#[test]
fn test_single_router_ignores_service_labels() {
    let l = labels(&[
        ("routing.http.services.svc.loadbalancer.server.port", "8080"),
        ("routing.http.routers.web.rule", "Host(`a.com`)"),
        ("routing.http.services.other.loadbalancer.server.port", "9090"),
    ]);
    match extract_traefik_config(&l) {
        Some(TraefikedContainerConfig::SinglePort(c)) => {
            assert_eq!(c.router_name, "web");
            assert_eq!(c.rule, "Host(`a.com`)");
        }
        other => panic!("expected a single-port config, got {:?}", other),
    }
}

#[test]
fn test_two_routers_paired_by_sorted_name() {
    // Declared out of alphabetical order on purpose: pairing goes by the
    // sorted names, not by discovery order.
    let l = labels(&[
        ("routing.http.routers.svcB.rule", "Host(`b.com`)"),
        ("routing.http.services.svcB.loadbalancer.server.port", "443"),
        ("routing.http.routers.svcA.rule", "Host(`a.com`)"),
        ("routing.http.services.svcA.loadbalancer.server.port", "80"),
    ]);
    match extract_traefik_config(&l) {
        Some(TraefikedContainerConfig::MultiplePorts(entries)) => {
            assert_eq!(entries.len(), 2);
            assert_eq!(entries[0].config.router_name, "svcA");
            assert_eq!(entries[0].config.rule, "Host(`a.com`)");
            assert_eq!(entries[0].service_name, "svcA");
            assert_eq!(entries[0].target_port, 80);
            assert_eq!(entries[1].config.router_name, "svcB");
            assert_eq!(entries[1].config.rule, "Host(`b.com`)");
            assert_eq!(entries[1].service_name, "svcB");
            assert_eq!(entries[1].target_port, 443);
        }
        other => panic!("expected a multi-port config, got {:?}", other),
    }
}

#[test]
fn test_arity_mismatch_yields_none() {
    let l = labels(&[
        ("routing.http.routers.a.rule", "Host(`a.com`)"),
        ("routing.http.routers.b.rule", "Host(`b.com`)"),
        ("routing.http.services.a.loadbalancer.server.port", "80"),
    ]);
    assert!(extract_traefik_config(&l).is_none());
}

#[test]
fn test_unparseable_port_is_skipped() {
    // The bad port drops one service pair, so the counts no longer agree.
    let l = labels(&[
        ("routing.http.routers.a.rule", "ra"),
        ("routing.http.routers.b.rule", "rb"),
        ("routing.http.services.a.loadbalancer.server.port", "80"),
        ("routing.http.services.b.loadbalancer.server.port", "not-a-port"),
    ]);
    assert!(extract_traefik_config(&l).is_none());
}

#[test]
fn test_port_out_of_range_is_skipped() {
    let l = labels(&[
        ("routing.http.routers.a.rule", "ra"),
        ("routing.http.routers.b.rule", "rb"),
        ("routing.http.services.a.loadbalancer.server.port", "80"),
        ("routing.http.services.b.loadbalancer.server.port", "65536"),
    ]);
    assert!(extract_traefik_config(&l).is_none());
}

#[test]
fn test_port_boundary_values() {
    let l = labels(&[
        ("routing.http.routers.a.rule", "ra"),
        ("routing.http.routers.b.rule", "rb"),
        ("routing.http.services.a.loadbalancer.server.port", "0"),
        ("routing.http.services.b.loadbalancer.server.port", "65535"),
    ]);
    match extract_traefik_config(&l) {
        Some(TraefikedContainerConfig::MultiplePorts(entries)) => {
            assert_eq!(entries[0].target_port, 0);
            assert_eq!(entries[1].target_port, 65535);
        }
        other => panic!("expected a multi-port config, got {:?}", other),
    }
}

#[test]
fn test_port_with_plus_sign_parses() {
    // u16 parsing accepts one leading plus sign before the digits.
    let l = labels(&[
        ("routing.http.routers.a.rule", "ra"),
        ("routing.http.routers.b.rule", "rb"),
        ("routing.http.services.a.loadbalancer.server.port", "+80"),
        ("routing.http.services.b.loadbalancer.server.port", "443"),
    ]);
    match extract_traefik_config(&l) {
        Some(TraefikedContainerConfig::MultiplePorts(entries)) => {
            assert_eq!(entries[0].target_port, 80);
            assert_eq!(entries[1].target_port, 443);
        }
        other => panic!("expected a multi-port config, got {:?}", other),
    }
}

#[test]
fn test_key_must_match_exactly() {
    // A prefix alone, a suffix alone, or an empty middle does not match.
    let l = labels(&[
        ("routing.http.routers..rule", "empty middle"),
        ("routing.http.routers.x.rule.extra", "wrong suffix"),
        ("xrouting.http.routers.x.rule", "wrong prefix"),
    ]);
    assert!(extract_traefik_config(&l).is_none());
}
