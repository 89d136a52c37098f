use traefik_http_provider::{AdapterError, RawContainer, TraefikedContainer, TraefikedContainerConfig};

fn routed_labels() -> Vec<(String, String)> {
    vec![(
        "routing.http.routers.web.rule".to_string(),
        "Host(`a.com`)".to_string(),
    )]
}

#[test]
fn test_adapter_success_strips_leading_slash() {
    let raw = RawContainer {
        names: Some(vec!["/my-service".to_string()]),
        ports: Some(vec![Some(8080), None, Some(9090)]),
        labels: Some(routed_labels()),
    };
    let c = TraefikedContainer::try_from_raw(raw).unwrap();
    assert_eq!(c.name, "my-service");
    assert_eq!(c.public_ports, vec![8080, 9090]);
    match c.config {
        TraefikedContainerConfig::SinglePort(cfg) => {
            assert_eq!(cfg.router_name, "web");
            assert_eq!(cfg.rule, "Host(`a.com`)");
        }
        other => panic!("expected a single-port config, got {:?}", other),
    }
}

#[test]
fn test_adapter_keeps_name_without_separator() {
    let raw = RawContainer {
        names: Some(vec!["plain".to_string()]),
        ports: Some(vec![]),
        labels: Some(routed_labels()),
    };
    let c = TraefikedContainer::try_from_raw(raw).unwrap();
    assert_eq!(c.name, "plain");
    assert_eq!(c.public_ports, Vec::<u16>::new());
}

#[test]
fn test_adapter_missing_name() {
    let raw = RawContainer {
        names: None,
        ports: Some(vec![Some(80)]),
        labels: Some(routed_labels()),
    };
    assert_eq!(
        TraefikedContainer::try_from_raw(raw).unwrap_err(),
        AdapterError::MissingName
    );
    let raw_empty = RawContainer {
        names: Some(vec![]),
        ports: Some(vec![Some(80)]),
        labels: Some(routed_labels()),
    };
    assert_eq!(
        TraefikedContainer::try_from_raw(raw_empty).unwrap_err(),
        AdapterError::MissingName
    );
}

#[test]
fn test_adapter_missing_ports() {
    let raw = RawContainer {
        names: Some(vec!["/svc".to_string()]),
        ports: None,
        labels: Some(routed_labels()),
    };
    assert_eq!(
        TraefikedContainer::try_from_raw(raw).unwrap_err(),
        AdapterError::MissingPorts
    );
}

#[test]
fn test_adapter_no_routing_config() {
    let raw = RawContainer {
        names: Some(vec!["/svc".to_string()]),
        ports: Some(vec![Some(80)]),
        labels: Some(vec![("unrelated".to_string(), "label".to_string())]),
    };
    assert_eq!(
        TraefikedContainer::try_from_raw(raw).unwrap_err(),
        AdapterError::NoRoutingConfig
    );
    let raw_no_labels = RawContainer {
        names: Some(vec!["/svc".to_string()]),
        ports: Some(vec![Some(80)]),
        labels: None,
    };
    assert_eq!(
        TraefikedContainer::try_from_raw(raw_no_labels).unwrap_err(),
        AdapterError::NoRoutingConfig
    );
}
