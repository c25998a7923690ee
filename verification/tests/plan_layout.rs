use supervise::launch::build_launch_sequence;
use supervise::launch::ConfigError;
use supervise::launch::LaunchStep;
use supervise::plan::collect_forwards;
use supervise::plan::collect_ports;
use supervise::plan::effective_hostname;
use supervise::plan::net_ns_file;
use supervise::plan::uts_ns_file;
use supervise::plan::ChildKind;
use supervise::plan::ChildSpec;
use supervise::plan::NetworkConfig;
use supervise::plan::SupervisionPlan;

fn host(name: &str, container: &str) -> ChildSpec {
    ChildSpec {
        name: name.to_string(),
        container: container.to_string(),
        kind: ChildKind::HostNet,
    }
}

fn networked(name: &str, container: &str, ip: &str, ports: Vec<(u16, u16)>) -> ChildSpec {
    ChildSpec {
        name: name.to_string(),
        container: container.to_string(),
        kind: ChildKind::Networked(NetworkConfig {
            ip: ip.to_string(),
            hostname: None,
            ports,
        }),
    }
}

fn bridge(name: &str, container: &str) -> ChildSpec {
    ChildSpec {
        name: name.to_string(),
        container: container.to_string(),
        kind: ChildKind::Bridge,
    }
}

#[test]
fn namespace_files_follow_ip() {
    let ip = "10.0.0.2".to_string();
    assert_eq!(net_ns_file(&ip), "net.10.0.0.2");
    assert_eq!(uts_ns_file(&ip), "uts.10.0.0.2");
}

#[test]
fn hostname_falls_back_to_name() {
    let name = "worker".to_string();
    let explicit = NetworkConfig {
        ip: "10.0.0.3".to_string(),
        hostname: Some("db-host".to_string()),
        ports: vec![],
    };
    let implicit = NetworkConfig { ip: "10.0.0.4".to_string(), hostname: None, ports: vec![] };
    assert_eq!(effective_hostname(&name, &explicit), "db-host");
    assert_eq!(effective_hostname(&name, &implicit), "worker");
}

#[test]
fn forwards_and_ports_in_plan_order() {
    let plan = SupervisionPlan {
        children: vec![
            host("front", "web"),
            networked("api", "web", "10.0.0.2", vec![(8080, 80), (8443, 443)]),
            networked("db", "postgres", "10.0.0.3", vec![(5433, 5432)]),
        ],
    };
    let forwards = collect_forwards(&plan);
    assert_eq!(
        forwards,
        vec![
            (8080, "10.0.0.2".to_string(), 80),
            (8443, "10.0.0.2".to_string(), 443),
            (5433, "10.0.0.3".to_string(), 5432),
        ]
    );
    assert_eq!(collect_ports(&plan), vec![8080, 8443, 5433]);
}

#[test]
fn empty_plan_is_a_caller_error() {
    let plan = SupervisionPlan { children: vec![] };
    assert_eq!(build_launch_sequence(&plan, true), Err(ConfigError::EmptyPlan));
}

#[test]
fn networked_plan_needs_gateway_setup() {
    // Network setup not run: the run aborts with a configuration error
    // before any spawn step exists.
    let plan = SupervisionPlan {
        children: vec![networked("a", "img", "10.0.0.2", vec![(8080, 80)])],
    };
    assert_eq!(build_launch_sequence(&plan, false), Err(ConfigError::NetworkNotSetUp));
}

#[test]
fn host_only_plan_runs_without_gateway_setup() {
    let plan = SupervisionPlan { children: vec![host("a", "img"), host("b", "img")] };
    let steps = build_launch_sequence(&plan, false).unwrap();
    assert_eq!(
        steps,
        vec![
            LaunchStep::BuildContainer { child: 0 },
            LaunchStep::SpawnHostNet { child: 0 },
            LaunchStep::SpawnHostNet { child: 1 },
        ]
    );
}

#[test]
fn containers_are_built_once_at_first_use() {
    let plan = SupervisionPlan {
        children: vec![host("a", "web"), host("b", "web"), host("c", "db")],
    };
    let steps = build_launch_sequence(&plan, true).unwrap();
    let builds: Vec<&LaunchStep> = steps
        .iter()
        .filter(|s| matches!(s, LaunchStep::BuildContainer { .. }))
        .collect();
    assert_eq!(
        builds,
        vec![&LaunchStep::BuildContainer { child: 0 }, &LaunchStep::BuildContainer { child: 2 }]
    );
}

#[test]
fn every_host_child_has_a_spawn_step() {
    let plan = SupervisionPlan {
        children: vec![host("a", "one"), host("b", "two"), host("c", "three")],
    };
    let steps = build_launch_sequence(&plan, true).unwrap();
    for child in 0..3 {
        assert!(steps.contains(&LaunchStep::SpawnHostNet { child }));
    }
}

#[test]
fn topology_precedes_namespaced_spawns_and_bridge_is_last() {
    let plan = SupervisionPlan {
        children: vec![
            networked("api", "web", "10.0.0.2", vec![(8080, 80)]),
            bridge("router", "gw"),
        ],
    };
    let steps = build_launch_sequence(&plan, true).unwrap();
    assert_eq!(
        steps,
        vec![
            LaunchStep::BuildContainer { child: 0 },
            LaunchStep::BuildContainer { child: 1 },
            LaunchStep::EnsureChildrenDir,
            LaunchStep::MountChildrenTmpfs,
            LaunchStep::JoinGateway,
            LaunchStep::UnshareMountNs,
            LaunchStep::SetupBridge,
            LaunchStep::SetupChildNamespaces { child: 0 },
            LaunchStep::ReattachBridge,
            LaunchStep::StartForwarding,
            LaunchStep::SpawnNamespaced { child: 0 },
            LaunchStep::SpawnBridge { child: 1 },
        ]
    );
}

#[test]
fn bridge_only_plan_still_builds_the_topology() {
    let plan = SupervisionPlan { children: vec![bridge("router", "gw")] };
    assert_eq!(build_launch_sequence(&plan, false), Err(ConfigError::NetworkNotSetUp));
    let steps = build_launch_sequence(&plan, true).unwrap();
    assert_eq!(
        steps,
        vec![
            LaunchStep::BuildContainer { child: 0 },
            LaunchStep::EnsureChildrenDir,
            LaunchStep::MountChildrenTmpfs,
            LaunchStep::JoinGateway,
            LaunchStep::UnshareMountNs,
            LaunchStep::SetupBridge,
            LaunchStep::ReattachBridge,
            LaunchStep::StartForwarding,
            LaunchStep::SpawnBridge { child: 0 },
        ]
    );
}

#[test]
fn mixed_plan_spawns_host_children_first() {
    let plan = SupervisionPlan {
        children: vec![
            networked("api", "web", "10.0.0.2", vec![]),
            host("logger", "tools"),
        ],
    };
    let steps = build_launch_sequence(&plan, true).unwrap();
    let host_at = steps
        .iter()
        .position(|s| *s == LaunchStep::SpawnHostNet { child: 1 })
        .unwrap();
    let ns_at = steps
        .iter()
        .position(|s| *s == LaunchStep::SpawnNamespaced { child: 0 })
        .unwrap();
    let topo_at = steps.iter().position(|s| *s == LaunchStep::SetupBridge).unwrap();
    assert!(host_at < topo_at);
    assert!(topo_at < ns_at);
}
