use traefik_http_provider::dynamic_configuration::{
    BuildError, DynamicConfiguration, DynamicConfigurationBuilder, HttpConfiguration,
    HttpRouterConfiguration, HttpServiceConfiguration, HttpServiceType,
    LoadBalancerHttpServiceConfiguration, ServiceUrl, StrMap,
};
use traefik_http_provider::{
    TraefikedContainer, TraefikedContainerConfig, TraefikedContainerMultiPortConfig,
    TraefikedContainerSinglePortConfig,
};

fn single_port_container(
    name: &str,
    router_name: &str,
    rule: &str,
    ports: Vec<u16>,
) -> TraefikedContainer {
    TraefikedContainer {
        name: name.to_string(),
        config: TraefikedContainerConfig::SinglePort(TraefikedContainerSinglePortConfig {
            router_name: router_name.to_string(),
            rule: rule.to_string(),
        }),
        public_ports: ports,
    }
}

#[test]
fn test_yaml_serialize() {
    let mut routers: StrMap<HttpRouterConfiguration> = StrMap::new();
    routers.insert(
        "to-my-service".to_owned(),
        HttpRouterConfiguration {
            rule: "Host(`my-service.my-domain.com`)".to_owned(),
            service: "my-service".to_owned(),
        },
    );
    let mut services: StrMap<HttpServiceConfiguration> = StrMap::new();
    services.insert(
        "my-service".to_owned(),
        HttpServiceConfiguration {
            service_type: HttpServiceType::LoadBalancer(LoadBalancerHttpServiceConfiguration {
                servers: vec![
                    ServiceUrl {
                        url: url::Url::parse("http://192.168.1.100:7878").unwrap().to_string(),
                    },
                    ServiceUrl {
                        url: url::Url::parse("http://my-service.local:7878").unwrap().to_string(),
                    },
                ],
            }),
        },
    );
    let dynamic_configuration = DynamicConfiguration {
        http: HttpConfiguration { routers, services },
    };

    let expected = r#"http:
  routers:
    to-my-service:
      rule: Host(`my-service.my-domain.com`)
      service: my-service
  services:
    my-service:
      loadBalancer:
        servers:
        - url: http://192.168.1.100:7878/
        - url: http://my-service.local:7878/
"#;

    let configuration_yaml = dynamic_configuration.to_yaml();

    assert_eq!(configuration_yaml, expected);
}

#[test]
fn test_builder() {
    let base_url = url::Url::parse("http://192.168.1.100").unwrap();
    let dynamic_configuration = DynamicConfigurationBuilder::new(base_url.to_string())
        .add_container(&TraefikedContainer {
            name: "my-service".to_owned(),
            config: TraefikedContainerConfig::SinglePort(TraefikedContainerSinglePortConfig {
                router_name: "to-my-service".to_owned(),
                rule: "Host(`my-service.my-domain.com`)".to_owned(),
            }),
            public_ports: vec![7878],
        })
        .unwrap()
        .build();

    let expected = r#"http:
  routers:
    to-my-service:
      rule: Host(`my-service.my-domain.com`)
      service: my-service
  services:
    my-service:
      loadBalancer:
        servers:
        - url: http://192.168.1.100:7878/
"#;

    let configuration_yaml = dynamic_configuration.to_yaml();

    assert_eq!(configuration_yaml, expected);
}

#[test]
fn test_builder_single_port_first_port_wins() {
    let doc = DynamicConfigurationBuilder::new("http://192.168.1.100".to_string())
        .add_container(&single_port_container("svc", "to-svc", "Host(`s`)", vec![7878, 9999]))
        .unwrap()
        .build();
    let yaml = doc.to_yaml();
    assert!(yaml.contains("- url: http://192.168.1.100:7878/"));
    assert!(!yaml.contains("9999"));
}

#[test]
fn test_empty_builder_serializes_empty_maps() {
    let doc = DynamicConfigurationBuilder::new("http://192.168.1.100".to_string()).build();
    assert_eq!(doc.to_yaml(), "http:\n  routers: {}\n  services: {}\n");
}

#[test]
fn test_serialization_order_independent_of_insertion_order() {
    let a = single_port_container("alpha", "to-alpha", "Host(`a`)", vec![1000]);
    let b = single_port_container("beta", "to-beta", "Host(`b`)", vec![2000]);

    let doc_ab = DynamicConfigurationBuilder::new("http://h.example".to_string())
        .add_container(&a)
        .unwrap()
        .add_container(&b)
        .unwrap()
        .build();
    let doc_ba = DynamicConfigurationBuilder::new("http://h.example".to_string())
        .add_container(&b)
        .unwrap()
        .add_container(&a)
        .unwrap()
        .build();

    assert_eq!(doc_ab.to_yaml(), doc_ba.to_yaml());
    let yaml = doc_ab.to_yaml();
    let alpha_pos = yaml.find("    to-alpha:").unwrap();
    let beta_pos = yaml.find("    to-beta:").unwrap();
    assert!(alpha_pos < beta_pos);
}

#[test]
fn test_serialization_is_deterministic() {
    let doc = DynamicConfigurationBuilder::new("http://h.example".to_string())
        .add_container(&single_port_container("svc", "to-svc", "Host(`s`)", vec![80]))
        .unwrap()
        .build();
    let first = doc.to_yaml();
    let second = doc.to_yaml();
    assert_eq!(first.as_bytes(), second.as_bytes());
}

#[test]
fn test_builder_no_public_port_fails() {
    let r = DynamicConfigurationBuilder::new("http://h.example".to_string())
        .add_container(&single_port_container("svc", "to-svc", "Host(`s`)", vec![]));
    match r {
        Err(BuildError::NoPublicPort(name)) => assert_eq!(name, "svc"),
        other => panic!("expected a missing-port failure, got {:?}", other.is_ok()),
    }
}

#[test]
fn test_builder_invalid_base_url_fails() {
    // A base address without a host cannot carry a port.
    let r = DynamicConfigurationBuilder::new("mailto:someone@example.com".to_string())
        .add_container(&single_port_container("svc", "to-svc", "Host(`s`)", vec![80]));
    assert!(matches!(r, Err(BuildError::InvalidBaseUrl)));
}

#[test]
fn test_builder_multi_port_targets_declared_ports() {
    let container = TraefikedContainer {
        name: "multi".to_string(),
        public_ports: vec![1111],
        config: TraefikedContainerConfig::MultiplePorts(vec![
            TraefikedContainerMultiPortConfig {
                config: TraefikedContainerSinglePortConfig {
                    router_name: "to-a".to_string(),
                    rule: "Host(`a`)".to_string(),
                },
                service_name: "a-svc".to_string(),
                target_port: 8080,
            },
            TraefikedContainerMultiPortConfig {
                config: TraefikedContainerSinglePortConfig {
                    router_name: "to-b".to_string(),
                    rule: "Host(`b`)".to_string(),
                },
                service_name: "b-svc".to_string(),
                target_port: 9090,
            },
        ]),
    };
    let doc = DynamicConfigurationBuilder::new("http://10.0.0.1".to_string())
        .add_container(&container)
        .unwrap()
        .build();
    let expected = r#"http:
  routers:
    to-a:
      rule: Host(`a`)
      service: a-svc
    to-b:
      rule: Host(`b`)
      service: b-svc
  services:
    a-svc:
      loadBalancer:
        servers:
        - url: http://10.0.0.1:8080/
    b-svc:
      loadBalancer:
        servers:
        - url: http://10.0.0.1:9090/
"#;
    assert_eq!(doc.to_yaml(), expected);
}

#[test]
fn test_insert_same_key_overwrites() {
    // Two containers sharing a router and service name: the last writer wins.
    let first = single_port_container("svc", "to-svc", "Host(`old`)", vec![1000]);
    let second = single_port_container("svc", "to-svc", "Host(`new`)", vec![2000]);
    let doc = DynamicConfigurationBuilder::new("http://h.example".to_string())
        .add_container(&first)
        .unwrap()
        .add_container(&second)
        .unwrap()
        .build();
    let yaml = doc.to_yaml();
    assert!(yaml.contains("rule: Host(`new`)"));
    assert!(!yaml.contains("rule: Host(`old`)"));
    assert!(yaml.contains("- url: http://h.example:2000/"));
    assert!(!yaml.contains(":1000/"));
}

#[test]
fn test_default_port_is_absorbed_by_scheme() {
    // The url crate drops an explicit port equal to the scheme's default.
    let doc = DynamicConfigurationBuilder::new("http://h.example".to_string())
        .add_container(&single_port_container("svc", "to-svc", "Host(`s`)", vec![80]))
        .unwrap()
        .build();
    assert!(doc.to_yaml().contains("- url: http://h.example/"));
}

#[test]
fn test_build_error_messages() {
    let e = BuildError::NoPublicPort("svc".to_string());
    assert_eq!(e.describe(), "No public port specified for container 'svc'");
    assert_eq!(
        BuildError::InvalidBaseUrl.describe(),
        "Cannot append container public port to base_url."
    );
}
