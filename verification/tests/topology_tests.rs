use vpn_relay::topology::{gsb_endpoint, Networks, Node, VpnError};

// 10.0.0.0/24 and friends as 32-bit values.
const NET_10_0_0_0: u32 = 0x0A000000;
const IP_10_0_0_1: u32 = 0x0A000001;
const IP_10_0_0_2: u32 = 0x0A000002;
const IP_10_0_0_3: u32 = 0x0A000003;
const IP_10_0_0_4: u32 = 0x0A000004;
const IP_10_0_1_5: u32 = 0x0A000105;
const NET_192_168_0_0: u32 = 0xC0A80000;
const IP_192_168_0_2: u32 = 0xC0A80002;

fn lan() -> Networks {
    let mut nets = Networks::new();
    nets.add_network(String::from("n1"), NET_10_0_0_0, 24).unwrap();
    nets
}

#[test]
fn duplicate_network_id_rejected() {
    let mut nets = lan();
    nets.add_node(&String::from("n1"), IP_10_0_0_2, &String::from("alice")).unwrap();
    let second = nets.add_network(String::from("n1"), NET_192_168_0_0, 24);
    assert_eq!(second, Err(VpnError::DuplicateNetwork));
    // The first network's state is untouched.
    assert_eq!(nets.resolve(IP_10_0_0_2), Some(String::from("/net/alice/vpn/n1")));
    assert_eq!(nets.network_ids(), vec![String::from("n1")]);
}

#[test]
fn too_small_address_space_rejected() {
    let mut nets = Networks::new();
    let r = nets.add_network(String::from("tiny"), NET_10_0_0_0, 31);
    assert_eq!(r, Err(VpnError::InvalidAddressSpace));
    assert_eq!(nets.network_ids(), Vec::<String>::new());
}

#[test]
fn add_node_out_of_range_leaves_table_unchanged() {
    let mut nets = lan();
    nets.add_node(&String::from("n1"), IP_10_0_0_2, &String::from("alice")).unwrap();

    // Outside the /24.
    let r = nets.add_node(&String::from("n1"), IP_10_0_1_5, &String::from("bob"));
    assert_eq!(r, Err(VpnError::AddressOutOfRange));
    // Equal to the gateway.
    let r = nets.add_node(&String::from("n1"), IP_10_0_0_1, &String::from("bob"));
    assert_eq!(r, Err(VpnError::AddressOutOfRange));
    // The network address and the broadcast address are no usable hosts.
    let r = nets.add_node(&String::from("n1"), NET_10_0_0_0, &String::from("bob"));
    assert_eq!(r, Err(VpnError::AddressOutOfRange));
    let r = nets.add_node(&String::from("n1"), 0x0A0000FF, &String::from("bob"));
    assert_eq!(r, Err(VpnError::AddressOutOfRange));

    // Nothing changed: alice still resolves, bob still does not exist.
    assert_eq!(nets.resolve(IP_10_0_0_2), Some(String::from("/net/alice/vpn/n1")));
    assert_eq!(nets.resolve(IP_10_0_1_5), None);
    assert_eq!(nets.broadcast_endpoints(&String::from("n1")).len(), 1);
}

#[test]
fn add_node_unknown_network() {
    let mut nets = lan();
    let r = nets.add_node(&String::from("nope"), IP_10_0_0_2, &String::from("alice"));
    assert_eq!(r, Err(VpnError::UnknownNetwork));
}

#[test]
fn address_in_use_by_other_peer() {
    let mut nets = lan();
    nets.add_node(&String::from("n1"), IP_10_0_0_2, &String::from("alice")).unwrap();
    let r = nets.add_node(&String::from("n1"), IP_10_0_0_2, &String::from("bob"));
    assert_eq!(r, Err(VpnError::AddressInUse));
    // The same peer may re-assert its own address.
    let r = nets.add_node(&String::from("n1"), IP_10_0_0_2, &String::from("alice"));
    assert_eq!(r, Ok(()));
    // And may move to a new address, freeing the old one.
    nets.add_node(&String::from("n1"), IP_10_0_0_3, &String::from("alice")).unwrap();
    assert_eq!(nets.resolve(IP_10_0_0_2), None);
    assert_eq!(nets.resolve(IP_10_0_0_3), Some(String::from("/net/alice/vpn/n1")));
}

#[test]
fn batch_atomicity_on_first_failure() {
    let mut nets = lan();
    let batch = vec![
        Node { ip: IP_10_0_0_2, node_id: String::from("peer1") },
        Node { ip: IP_10_0_1_5, node_id: String::from("peer2") }, // outside the range
    ];
    let r = nets.add_nodes(&String::from("n1"), &batch);
    assert_eq!(r, Err(VpnError::AddressOutOfRange));
    // peer1 was not added either: no partial mutation.
    assert_eq!(nets.resolve(IP_10_0_0_2), None);
    assert_eq!(nets.broadcast_endpoints(&String::from("n1")).len(), 0);

    // The same batch with a valid second entry applies wholly.
    let batch = vec![
        Node { ip: IP_10_0_0_2, node_id: String::from("peer1") },
        Node { ip: IP_10_0_0_3, node_id: String::from("peer2") },
    ];
    nets.add_nodes(&String::from("n1"), &batch).unwrap();
    assert_eq!(nets.resolve(IP_10_0_0_2), Some(String::from("/net/peer1/vpn/n1")));
    assert_eq!(nets.resolve(IP_10_0_0_3), Some(String::from("/net/peer2/vpn/n1")));
}

#[test]
fn resolve_after_remove_returns_none() {
    let mut nets = lan();
    nets.add_node(&String::from("n1"), IP_10_0_0_2, &String::from("alice")).unwrap();
    assert_eq!(nets.resolve(IP_10_0_0_2), Some(String::from("/net/alice/vpn/n1")));
    nets.remove_node(&String::from("n1"), &String::from("alice")).unwrap();
    assert_eq!(nets.resolve(IP_10_0_0_2), None);
    // Removing a peer with no membership is not an error.
    assert_eq!(nets.remove_node(&String::from("n1"), &String::from("alice")), Ok(()));
    // Removing from an unknown network is.
    assert_eq!(
        nets.remove_node(&String::from("nope"), &String::from("alice")),
        Err(VpnError::UnknownNetwork)
    );
}

#[test]
fn broadcast_endpoints_lists_every_member_once() {
    let mut nets = lan();
    nets.add_node(&String::from("n1"), IP_10_0_0_2, &String::from("a")).unwrap();
    nets.add_node(&String::from("n1"), IP_10_0_0_3, &String::from("b")).unwrap();
    nets.add_node(&String::from("n1"), IP_10_0_0_4, &String::from("c")).unwrap();
    let eps = nets.broadcast_endpoints(&String::from("n1"));
    assert_eq!(
        eps,
        vec![
            String::from("/net/a/vpn/n1"),
            String::from("/net/b/vpn/n1"),
            String::from("/net/c/vpn/n1"),
        ]
    );
    assert_eq!(nets.broadcast_endpoints(&String::from("nope")), Vec::<String>::new());
}

#[test]
fn resolve_prefers_earlier_network() {
    let mut nets = lan();
    nets.add_network(String::from("n2"), NET_10_0_0_0, 24).unwrap();
    nets.add_node(&String::from("n2"), IP_10_0_0_2, &String::from("bob")).unwrap();
    assert_eq!(nets.resolve(IP_10_0_0_2), Some(String::from("/net/bob/vpn/n2")));
    nets.add_node(&String::from("n1"), IP_10_0_0_2, &String::from("alice")).unwrap();
    // Both networks hold the address; the earlier-registered one wins.
    assert_eq!(nets.resolve(IP_10_0_0_2), Some(String::from("/net/alice/vpn/n1")));
}

#[test]
fn unaligned_network_address_is_masked() {
    let mut nets = Networks::new();
    // 192.168.0.2/24 names the same space as 192.168.0.0/24.
    nets.add_network(String::from("lan"), IP_192_168_0_2, 24).unwrap();
    nets.add_node(&String::from("lan"), NET_192_168_0_0 + 7, &String::from("p")).unwrap();
    assert_eq!(
        nets.resolve(NET_192_168_0_0 + 7),
        Some(String::from("/net/p/vpn/lan"))
    );
    // The gateway is still 192.168.0.1.
    assert_eq!(
        nets.add_node(&String::from("lan"), NET_192_168_0_0 + 1, &String::from("q")),
        Err(VpnError::AddressOutOfRange)
    );
}

#[test]
fn endpoint_addressing_scheme() {
    let ep = gsb_endpoint("alice", "lan0");
    assert_eq!(ep, String::from("/net/alice/vpn/lan0"));
}
