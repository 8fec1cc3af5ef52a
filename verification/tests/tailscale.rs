use tracker::error::TrackerError;
use tracker::tailscale::{IpAddress, Ipv4Address, TailscaleNode, TailscaleStatus};

const STATUS_JSON: &str = r#"{
  "BackendState": "Running",
  "Self": {
    "HostName": "desktop",
    "TailscaleIPs": ["100.64.0.1", "fd7a:115c:a1e0::1"],
    "Online": true
  },
  "Peer": {
    "node-key-1": {
      "DNSName": "macbook.example.ts.net.",
      "HostName": "macbook",
      "TailscaleIPs": ["100.64.0.2"],
      "Online": true
    },
    "node-key-2": {
      "HostName": "offline-server",
      "TailscaleIPs": ["100.64.0.3"],
      "Online": false
    }
  }
}"#;

fn address(text: &str) -> IpAddress {
    if let Some(octets) = text
        .split('.')
        .map(|p| p.parse::<u8>().ok())
        .collect::<Option<Vec<u8>>>()
        .filter(|o| o.len() == 4)
    {
        IpAddress::V4(Ipv4Address(octets[0], octets[1], octets[2], octets[3]))
    } else {
        IpAddress::V6(0)
    }
}

fn node(value: &serde_json::Value) -> TailscaleNode {
    let text = |key: &str| value.get(key).and_then(|v| v.as_str()).unwrap_or_default().to_string();
    TailscaleNode {
        dns_name: text("DNSName"),
        host_name: text("HostName"),
        tailscale_ips: value
            .get("TailscaleIPs")
            .and_then(|v| v.as_array())
            .map(|ips| ips.iter().map(|ip| address(ip.as_str().unwrap())).collect())
            .unwrap_or_default(),
        online: value.get("Online").and_then(|v| v.as_bool()).unwrap_or(false),
    }
}

fn status(json: &str) -> TailscaleStatus {
    let value: serde_json::Value = serde_json::from_str(json).unwrap();
    TailscaleStatus {
        backend_state: value["BackendState"].as_str().unwrap().to_string(),
        self_node: node(&value["Self"]),
        peers: value["Peer"].as_object().unwrap().values().map(node).collect(),
    }
}

#[test]
fn reads_local_address_and_online_peers() {
    let status = status(STATUS_JSON);
    status.ensure_running().unwrap();
    assert_eq!(status.local_ipv4().unwrap(), Ipv4Address(100, 64, 0, 1));
    let peers = status.online_peers();
    assert_eq!(peers.len(), 1);
    assert_eq!(peers[0].name, "macbook");
    assert_eq!(peers[0].ip, Ipv4Address(100, 64, 0, 2));
}

#[test]
fn refuses_a_stopped_backend_and_a_missing_address() {
    let mut status = status(STATUS_JSON);
    status.backend_state = "Stopped".to_string();
    match status.ensure_running() {
        Err(TrackerError::TailscaleNotRunning { state }) => assert_eq!(state, "Stopped"),
        _ => panic!("expected a refusal"),
    }
    status.self_node.tailscale_ips = vec![IpAddress::V6(1)];
    assert!(matches!(status.local_ipv4(), Err(TrackerError::NoTailscaleIpv4)));
}

#[test]
fn names_nodes_by_host_dns_or_address() {
    let mut n = TailscaleNode {
        dns_name: "mac.example.ts.net..".to_string(),
        host_name: String::new(),
        tailscale_ips: vec![IpAddress::V6(7), IpAddress::V4(Ipv4Address(100, 101, 0, 9))],
        online: true,
    };
    assert_eq!(n.display_name(), "mac.example.ts.net");
    assert_eq!(n.ipv4(), Some(Ipv4Address(100, 101, 0, 9)));
    n.dns_name.clear();
    assert_eq!(n.display_name(), "100.101.0.9");
    n.tailscale_ips.clear();
    assert_eq!(n.display_name(), "unknown device");
}

#[test]
fn lists_online_peers_by_name() {
    let peer = |name: &str, last: u8| TailscaleNode {
        dns_name: String::new(),
        host_name: name.to_string(),
        tailscale_ips: vec![IpAddress::V4(Ipv4Address(100, 64, 0, last))],
        online: true,
    };
    let status = TailscaleStatus {
        backend_state: "Running".to_string(),
        self_node: peer("self", 1),
        peers: vec![peer("zeta", 2), peer("alpha", 3), peer("mid", 4)],
    };
    let names: Vec<String> = status.online_peers().into_iter().map(|p| p.name).collect();
    assert_eq!(names, ["alpha", "mid", "zeta"]);
}
