use vpn_relay::codec::write_prefix;
use vpn_relay::frame::classify_frame;
use vpn_relay::relay::{
    create_network_request, runtime_network, start_vpn, Deployment, DeploymentNetwork, RelayPhase,
    Vpn, VpnControl,
};
use vpn_relay::topology::{Networks, Node, VpnError};

const NET_10_0_0_0: u32 = 0x0A000000;
const IP_10_0_0_2: u32 = 0x0A000002;
const IP_10_0_0_3: u32 = 0x0A000003;
const IP_10_0_0_4: u32 = 0x0A000004;
const BCAST_10_0_0_255: u32 = 0x0A0000FF;

/// An Ethernet frame with an IPv4 payload whose destination is `dst`.
fn ip_frame(dst: u32, filler: u8) -> Vec<u8> {
    let mut f = vec![filler; 40];
    f[12] = 0x08;
    f[13] = 0x00;
    f[30] = (dst >> 24) as u8;
    f[31] = (dst >> 16) as u8;
    f[32] = (dst >> 8) as u8;
    f[33] = dst as u8;
    f
}

/// An Ethernet frame with an ARP payload whose target address is `tpa`.
fn arp_frame(tpa: u32, ptype: u16) -> Vec<u8> {
    let mut f = vec![0u8; 42];
    f[12] = 0x08;
    f[13] = 0x06;
    f[16] = (ptype >> 8) as u8;
    f[17] = ptype as u8;
    f[38] = (tpa >> 24) as u8;
    f[39] = (tpa >> 16) as u8;
    f[40] = (tpa >> 8) as u8;
    f[41] = tpa as u8;
    f
}

fn lan_deployment() -> Deployment {
    Deployment {
        networks: vec![DeploymentNetwork {
            id: String::from("lan0"),
            addr: NET_10_0_0_0,
            prefix: 24,
            node_ip: IP_10_0_0_3,
            nodes: vec![Node { ip: IP_10_0_0_2, node_id: String::from("alice") }],
        }],
        hosts: vec![],
    }
}

#[test]
fn end_to_end_unicast_forwarding() {
    // Deployment: network "lan0" = 10.0.0.0/24, gateway 10.0.0.1,
    // peer "alice" = 10.0.0.2.
    let vpn = start_vpn(String::from("me"), &lan_deployment()).unwrap();
    let mut vpn = vpn.expect("a deployment with networks yields a relay");
    assert_eq!(vpn.phase(), RelayPhase::NotStarted);

    let routes = vpn.started(Some(String::from("/tmp/vpn.sock"))).unwrap();
    assert_eq!(routes, vec![String::from("/net/me/vpn/lan0")]);
    assert_eq!(vpn.phase(), RelayPhase::Active);

    // A decoded IP frame destined to 10.0.0.2 resolves to alice's routing
    // endpoint and is forwarded unmodified.
    let frame = ip_frame(IP_10_0_0_2, 0xAB);
    let mut chunk = frame.clone();
    write_prefix(&mut chunk);
    let calls = vpn.handle_egress(chunk);
    assert_eq!(calls.len(), 1);
    assert_eq!(calls[0].endpoint, String::from("/net/alice/vpn/lan0"));
    assert_eq!(calls[0].payload, frame);
}

#[test]
fn broadcast_fans_out_to_every_member() {
    let mut nets = Networks::new();
    nets.add_network(String::from("n1"), NET_10_0_0_0, 24).unwrap();
    nets.add_node(&String::from("n1"), IP_10_0_0_2, &String::from("a")).unwrap();
    nets.add_node(&String::from("n1"), IP_10_0_0_3, &String::from("b")).unwrap();
    nets.add_node(&String::from("n1"), IP_10_0_0_4, &String::from("c")).unwrap();

    let frame = ip_frame(BCAST_10_0_0_255, 0x55);
    let calls = classify_frame(&nets, frame.clone());
    assert_eq!(calls.len(), 3);
    let endpoints: Vec<String> = calls.iter().map(|c| c.endpoint.clone()).collect();
    assert_eq!(
        endpoints,
        vec![
            String::from("/net/a/vpn/n1"),
            String::from("/net/b/vpn/n1"),
            String::from("/net/c/vpn/n1"),
        ]
    );
    for c in calls.iter() {
        assert_eq!(c.payload, frame);
    }
}

#[test]
fn arp_forwarding_filters_on_protocol_type() {
    let mut nets = Networks::new();
    nets.add_network(String::from("n1"), NET_10_0_0_0, 24).unwrap();
    nets.add_node(&String::from("n1"), IP_10_0_0_2, &String::from("alice")).unwrap();

    // IPv4 ARP: forwarded to the target's endpoint, frame unmodified.
    let f = arp_frame(IP_10_0_0_2, 0x0800);
    let calls = classify_frame(&nets, f.clone());
    assert_eq!(calls.len(), 1);
    assert_eq!(calls[0].endpoint, String::from("/net/alice/vpn/n1"));
    assert_eq!(calls[0].payload, f);

    // Non-IPv4 ARP: dropped.
    let calls = classify_frame(&nets, arp_frame(IP_10_0_0_2, 0x86DD));
    assert_eq!(calls.len(), 0);

    // Unresolved target: dropped.
    let calls = classify_frame(&nets, arp_frame(IP_10_0_0_4, 0x0800));
    assert_eq!(calls.len(), 0);

    // A short ARP frame is dropped, not sliced past its end.
    let calls = classify_frame(&nets, vec![0, 0, 0, 0, 0, 0, 0, 0, 0, 0, 0, 0, 0x08, 0x06, 0, 0]);
    assert_eq!(calls.len(), 0);
}

#[test]
fn unsupported_ether_type_is_dropped() {
    let mut nets = Networks::new();
    nets.add_network(String::from("n1"), NET_10_0_0_0, 24).unwrap();
    let mut f = ip_frame(IP_10_0_0_2, 0);
    f[12] = 0x86;
    f[13] = 0xDD;
    assert_eq!(classify_frame(&nets, f).len(), 0);
}

#[test]
fn one_bad_frame_never_aborts_the_batch() {
    let vpn = start_vpn(String::from("me"), &lan_deployment()).unwrap();
    let mut vpn = vpn.unwrap();
    vpn.started(Some(String::from("p"))).unwrap();

    // Three frames in one chunk: good, unsupported type, good.
    let good = ip_frame(IP_10_0_0_2, 1);
    let mut bad = ip_frame(IP_10_0_0_2, 2);
    bad[13] = 0x99;
    let mut chunk: Vec<u8> = Vec::new();
    for f in [&good, &bad, &good] {
        let mut framed = f.clone();
        write_prefix(&mut framed);
        chunk.extend_from_slice(&framed);
    }
    let calls = vpn.handle_egress(chunk);
    assert_eq!(calls.len(), 2);
    assert_eq!(calls[0].payload, good);
    assert_eq!(calls[1].payload, good);
}

#[test]
fn no_local_endpoint_is_fatal() {
    let vpn = start_vpn(String::from("me"), &lan_deployment()).unwrap();
    let mut vpn = vpn.unwrap();
    let r = vpn.started(None);
    assert_eq!(r, Err(VpnError::NoLocalEndpoint));
    assert_eq!(vpn.phase(), RelayPhase::Stopped);
}

#[test]
fn deployment_without_networks_needs_no_relay() {
    let d = Deployment { networks: vec![], hosts: vec![] };
    let r = start_vpn(String::from("me"), &d).unwrap();
    assert!(r.is_none());
}

#[test]
fn invalid_deployment_is_rejected_whole() {
    let mut d = lan_deployment();
    d.networks.push(DeploymentNetwork {
        id: String::from("tiny"),
        addr: NET_10_0_0_0,
        prefix: 31,
        node_ip: IP_10_0_0_3,
        nodes: vec![],
    });
    let r = start_vpn(String::from("me"), &d);
    assert_eq!(r.err(), Some(VpnError::InvalidAddressSpace));
}

#[test]
fn ingress_frames_get_a_length_prefix() {
    let vpn = start_vpn(String::from("me"), &lan_deployment()).unwrap();
    let mut vpn = vpn.unwrap();
    vpn.started(Some(String::from("p"))).unwrap();

    let out = vpn.handle_ingress(vec![7, 8, 9]).unwrap();
    assert_eq!(out, vec![3, 0, 7, 8, 9]);

    // An oversized ingress frame is dropped, not truncated.
    let out = vpn.handle_ingress(vec![0u8; 65536]);
    assert!(out.is_none());
}

#[test]
fn control_plane_applies_and_rejects_batches() {
    let vpn = start_vpn(String::from("me"), &lan_deployment()).unwrap();
    let mut vpn = vpn.unwrap();
    vpn.started(Some(String::from("p"))).unwrap();

    // A valid batch adds both peers.
    let r = vpn.handle_control(VpnControl::AddNodes {
        network_id: String::from("lan0"),
        nodes: vec![
            Node { ip: IP_10_0_0_3, node_id: String::from("bob") },
            Node { ip: IP_10_0_0_4, node_id: String::from("carol") },
        ],
    });
    assert_eq!(r, Ok(()));
    let bob_frame = ip_frame(IP_10_0_0_3, 3);
    let mut chunk = bob_frame.clone();
    write_prefix(&mut chunk);
    let calls = vpn.handle_egress(chunk);
    assert_eq!(calls.len(), 1);
    assert_eq!(calls[0].endpoint, String::from("/net/bob/vpn/lan0"));

    // An invalid batch is rejected whole: dave is not added.
    let r = vpn.handle_control(VpnControl::AddNodes {
        network_id: String::from("lan0"),
        nodes: vec![
            Node { ip: 0x0A000005, node_id: String::from("dave") },
            Node { ip: 0x0B000001, node_id: String::from("erin") },
        ],
    });
    assert_eq!(r, Err(VpnError::AddressOutOfRange));
    let mut chunk = ip_frame(0x0A000005, 4);
    write_prefix(&mut chunk);
    assert_eq!(vpn.handle_egress(chunk).len(), 0);

    // Removal takes bob out again.
    let r = vpn.handle_control(VpnControl::RemoveNodes {
        network_id: String::from("lan0"),
        node_ids: vec![String::from("bob")],
    });
    assert_eq!(r, Ok(()));
    let mut chunk = bob_frame.clone();
    write_prefix(&mut chunk);
    assert_eq!(vpn.handle_egress(chunk).len(), 0);

    // An unknown network is reported to the caller.
    let r = vpn.handle_control(VpnControl::RemoveNodes {
        network_id: String::from("nope"),
        node_ids: vec![],
    });
    assert_eq!(r, Err(VpnError::UnknownNetwork));
}

#[test]
fn stopping_returns_routes_to_unbind() {
    let vpn = start_vpn(String::from("me"), &lan_deployment()).unwrap();
    let mut vpn = vpn.unwrap();
    vpn.started(Some(String::from("p"))).unwrap();
    let routes = vpn.stopping();
    assert_eq!(routes, vec![String::from("/net/me/vpn/lan0")]);
    assert_eq!(vpn.phase(), RelayPhase::Stopping);
    vpn.stopped();
    assert_eq!(vpn.phase(), RelayPhase::Stopped);
}

#[test]
fn runtime_network_translation() {
    let dn = DeploymentNetwork {
        id: String::from("lan0"),
        addr: NET_10_0_0_0,
        prefix: 24,
        node_ip: IP_10_0_0_3,
        nodes: vec![],
    };
    let rn = runtime_network(&dn).unwrap();
    assert_eq!(rn.addr, String::from("10.0.0.0"));
    assert_eq!(rn.gateway, String::from("10.0.0.1"));
    assert_eq!(rn.mask, String::from("255.255.255.0"));
    assert_eq!(rn.if_addr, String::from("10.0.0.3"));

    let bad = DeploymentNetwork {
        id: String::from("tiny"),
        addr: NET_10_0_0_0,
        prefix: 31,
        node_ip: IP_10_0_0_3,
        nodes: vec![],
    };
    assert_eq!(runtime_network(&bad).err(), Some(VpnError::InvalidAddressSpace));

    let req = create_network_request(&lan_deployment()).unwrap();
    assert_eq!(req.len(), 1);
    assert_eq!(req[0].gateway, String::from("10.0.0.1"));
}

#[test]
fn relay_construction_reports_first_rejection() {
    // A duplicate network identifier in the descriptor.
    let mut d = lan_deployment();
    d.networks.push(DeploymentNetwork {
        id: String::from("lan0"),
        addr: NET_10_0_0_0,
        prefix: 24,
        node_ip: IP_10_0_0_3,
        nodes: vec![],
    });
    assert_eq!(Vpn::try_new(String::from("me"), &d).err(), Some(VpnError::DuplicateNetwork));

    // A membership outside the network's space.
    let mut d = lan_deployment();
    d.networks[0].nodes.push(Node { ip: 0x0B000001, node_id: String::from("bob") });
    assert_eq!(Vpn::try_new(String::from("me"), &d).err(), Some(VpnError::AddressOutOfRange));
}
