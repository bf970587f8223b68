//! The topology table: virtual networks, their address spaces, and
//! peer-to-endpoint membership.
//!
//! A [`Networks`] value is the in-memory registry of every virtual network
//! the relay serves.  Each network owns an address space (base address plus
//! prefix length, with the first usable host address reserved as the
//! gateway) and a set of member nodes, each a peer identifier with one
//! assigned address.  The table resolves a destination address to the
//! remote routing endpoint of the peer that holds it, and enumerates the
//! endpoints of a whole network for broadcast fan-out.  All mutations are
//! specified by the `spec_*` transition functions, and a batch of
//! additions is atomic: on the first invalid entry the table is left
//! exactly as it was.

use crate::addr::base_of;
use crate::addr::net_size_spec;
use vstd::arithmetic::power2::lemma2_to64;
use vstd::arithmetic::power2::lemma_pow2_adds;
use vstd::arithmetic::power2::lemma_pow2_pos;
use vstd::arithmetic::power2::pow2;
use vstd::prelude::*;

verus! {

/// Why a control-plane request was rejected, or why the relay stopped.
#[derive(Clone, Copy, Debug, PartialEq, Eq, Structural)]
pub enum VpnError {
    /// A network with this identifier is already registered.
    DuplicateNetwork,
    /// The address space leaves fewer than two usable host addresses.
    InvalidAddressSpace,
    /// No network with this identifier is registered.
    UnknownNetwork,
    /// The address lies outside the network's usable host range or is the
    /// reserved gateway address.
    AddressOutOfRange,
    /// The address is already assigned to a different peer.
    AddressInUse,
    /// The workload runtime offered no local receive stream; fatal.
    NoLocalEndpoint,
}

/// One member of a virtual network: a peer and its assigned address.
pub struct Node {
    pub ip: u32,
    pub node_id: String,
}

/// Mathematical model of a [`Node`].
#[verifier::ext_equal]
pub ghost struct NodeV {
    pub ip: u32,
    pub node_id: Seq<char>,
}

/// One virtual network: its identifier, address space and members.
pub struct VirtualNetwork {
    pub id: String,
    pub base: u32,
    pub prefix: u8,
    pub nodes: Vec<Node>,
}

/// Mathematical model of a [`VirtualNetwork`].
#[verifier::ext_equal]
pub ghost struct NetV {
    pub id: Seq<char>,
    pub base: u32,
    pub prefix: u8,
    pub nodes: Seq<NodeV>,
}

/// The registry of all virtual networks served by the relay.
pub struct Networks {
    networks: Vec<VirtualNetwork>,
}

impl View for Node {
    type V = NodeV;

    open spec fn view(&self) -> NodeV {
        NodeV { ip: self.ip, node_id: self.node_id@ }
    }
}

impl DeepView for Node {
    type V = NodeV;

    open spec fn deep_view(&self) -> NodeV {
        self@
    }
}

impl View for VirtualNetwork {
    type V = NetV;

    open spec fn view(&self) -> NetV {
        NetV {
            id: self.id@,
            base: self.base,
            prefix: self.prefix,
            nodes: self.nodes.deep_view(),
        }
    }
}

impl DeepView for VirtualNetwork {
    type V = NetV;

    open spec fn deep_view(&self) -> NetV {
        self@
    }
}

impl View for Networks {
    type V = Seq<NetV>;

    closed spec fn view(&self) -> Seq<NetV> {
        self.networks.deep_view()
    }
}

impl Node {
    /// A copy holding the same address and peer identifier.
    pub fn duplicate(&self) -> (r: Node)
        ensures
            r@ == self@,
    {
        Node { ip: self.ip, node_id: self.node_id.clone() }
    }
}

/// The reserved gateway address: the first usable host address.
pub open spec fn net_gateway(n: NetV) -> u32 {
    (n.base + 1) as u32
}

/// The network's broadcast address (as an unbounded integer).
pub open spec fn net_broadcast(n: NetV) -> int {
    n.base + net_size_spec(n.prefix) - 1
}

/// `ip` is a usable host address of `n`: inside the address space and
/// neither the network address itself nor the broadcast address.
pub open spec fn net_contains_host(n: NetV, ip: u32) -> bool {
    n.base < ip && ip < net_broadcast(n)
}

/// A member entry is well placed: a usable host address other than the gateway.
pub open spec fn node_ok(n: NetV, nd: NodeV) -> bool {
    net_contains_host(n, nd.ip) && nd.ip != net_gateway(n)
}

/// Internal consistency of one network: at least two usable host addresses,
/// an aligned base that fits the address width, and members with distinct
/// peers, distinct addresses, all well placed.
pub open spec fn net_wf(n: NetV) -> bool {
    &&& n.prefix <= 30
    &&& n.base as nat % net_size_spec(n.prefix) == 0
    &&& n.base + net_size_spec(n.prefix) <= 0x100000000
    &&& forall|k: int| 0 <= k < n.nodes.len() ==> node_ok(n, #[trigger] n.nodes[k])
    &&& forall|k: int, l: int|
        0 <= k < l < n.nodes.len() ==> n.nodes[k].ip != n.nodes[l].ip && n.nodes[k].node_id
            != n.nodes[l].node_id
}

/// Internal consistency of the whole registry: well-formed networks with
/// pairwise distinct identifiers.
pub open spec fn networks_wf(nets: Seq<NetV>) -> bool {
    &&& forall|i: int| 0 <= i < nets.len() ==> net_wf(#[trigger] nets[i])
    &&& forall|i: int, j: int| 0 <= i < j < nets.len() ==> nets[i].id != nets[j].id
}

/// Some network in `nets` carries the identifier `id`.
pub open spec fn has_network(nets: Seq<NetV>, id: Seq<char>) -> bool {
    exists|i: int| 0 <= i < nets.len() && nets[i].id == id
}

/// The index of the network with identifier `id`.
pub open spec fn net_index(nets: Seq<NetV>, id: Seq<char>) -> int
    recommends
        has_network(nets, id),
{
    choose|i: int| 0 <= i < nets.len() && nets[i].id == id
}

/// Some member of `nodes` is the peer `node_id`.
pub open spec fn has_node_id(nodes: Seq<NodeV>, node_id: Seq<char>) -> bool {
    exists|j: int| 0 <= j < nodes.len() && nodes[j].node_id == node_id
}

/// The index of the member entry of peer `node_id`.
pub open spec fn node_id_index(nodes: Seq<NodeV>, node_id: Seq<char>) -> int
    recommends
        has_node_id(nodes, node_id),
{
    choose|j: int| 0 <= j < nodes.len() && nodes[j].node_id == node_id
}

/// Some member of `nodes` holds the address `ip`.
pub open spec fn has_node_ip(nodes: Seq<NodeV>, ip: u32) -> bool {
    exists|j: int| 0 <= j < nodes.len() && nodes[j].ip == ip
}

/// The index of the member entry holding address `ip`.
pub open spec fn node_ip_index(nodes: Seq<NodeV>, ip: u32) -> int
    recommends
        has_node_ip(nodes, ip),
{
    choose|j: int| 0 <= j < nodes.len() && nodes[j].ip == ip
}

/// `ip` is already assigned to a peer other than `node_id`.
pub open spec fn ip_conflict(nodes: Seq<NodeV>, ip: u32, node_id: Seq<char>) -> bool {
    exists|j: int| 0 <= j < nodes.len() && nodes[j].ip == ip && nodes[j].node_id != node_id
}

/// Inserts the membership (`ip`, `node_id`), or moves the peer to `ip` if it
/// is already a member.
pub open spec fn upsert_node(nodes: Seq<NodeV>, ip: u32, node_id: Seq<char>) -> Seq<NodeV> {
    if has_node_id(nodes, node_id) {
        nodes.update(node_id_index(nodes, node_id), NodeV { ip, node_id })
    } else {
        nodes.push(NodeV { ip, node_id })
    }
}

/// The memberships of `nodes` with every entry of peer `node_id` removed.
pub open spec fn remove_peer(nodes: Seq<NodeV>, node_id: Seq<char>) -> Seq<NodeV> {
    nodes.filter(|nd: NodeV| nd.node_id != node_id)
}

/// The routing endpoint of peer `node_id` on network `net_id`.
pub open spec fn route_chars(node_id: Seq<char>, net_id: Seq<char>) -> Seq<char> {
    "/net/"@ + node_id + "/vpn/"@ + net_id
}

/// What registering a network does to the registry, or why it is rejected.
pub open spec fn spec_add_network(nets: Seq<NetV>, id: Seq<char>, addr: u32, prefix: u8) -> Result<
    Seq<NetV>,
    VpnError,
> {
    if has_network(nets, id) {
        Err(VpnError::DuplicateNetwork)
    } else if prefix > 30 {
        Err(VpnError::InvalidAddressSpace)
    } else {
        Ok(nets.push(NetV { id, base: base_of(addr, prefix), prefix, nodes: Seq::empty() }))
    }
}

/// What adding one membership does to one network's member list, or why it
/// is rejected.
pub open spec fn spec_add_to_net(n: NetV, ip: u32, node_id: Seq<char>) -> Result<
    Seq<NodeV>,
    VpnError,
> {
    if !net_contains_host(n, ip) || ip == net_gateway(n) {
        Err(VpnError::AddressOutOfRange)
    } else if ip_conflict(n.nodes, ip, node_id) {
        Err(VpnError::AddressInUse)
    } else {
        Ok(upsert_node(n.nodes, ip, node_id))
    }
}

/// What adding one membership does to the registry, or why it is rejected.
pub open spec fn spec_add_node(
    nets: Seq<NetV>,
    net_id: Seq<char>,
    ip: u32,
    node_id: Seq<char>,
) -> Result<Seq<NetV>, VpnError> {
    if !has_network(nets, net_id) {
        Err(VpnError::UnknownNetwork)
    } else {
        let k = net_index(nets, net_id);
        let n = nets[k];
        match spec_add_to_net(n, ip, node_id) {
            Ok(nodes) => Ok(nets.update(k, NetV { nodes, ..n })),
            Err(e) => Err(e),
        }
    }
}

/// What a whole batch of additions does: entries apply in order, and the
/// first rejection decides the result of the batch.
pub open spec fn spec_add_nodes(nets: Seq<NetV>, net_id: Seq<char>, entries: Seq<NodeV>) -> Result<
    Seq<NetV>,
    VpnError,
>
    decreases entries.len(),
{
    if entries.len() == 0 {
        Ok(nets)
    } else {
        match spec_add_node(nets, net_id, entries[0].ip, entries[0].node_id) {
            Ok(nets2) => spec_add_nodes(nets2, net_id, entries.drop_first()),
            Err(e) => Err(e),
        }
    }
}

/// What removing one peer from a network does to the registry.
pub open spec fn spec_remove_node(nets: Seq<NetV>, net_id: Seq<char>, node_id: Seq<char>) -> Result<
    Seq<NetV>,
    VpnError,
> {
    if !has_network(nets, net_id) {
        Err(VpnError::UnknownNetwork)
    } else {
        let k = net_index(nets, net_id);
        let n = nets[k];
        Ok(nets.update(k, NetV { nodes: remove_peer(n.nodes, node_id), ..n }))
    }
}

/// The endpoint the registry routes `ip` to: networks are consulted in
/// registration order, and within a network the peer holding `ip` wins.
pub open spec fn spec_resolve(nets: Seq<NetV>, ip: u32) -> Option<Seq<char>>
    decreases nets.len(),
{
    if nets.len() == 0 {
        None
    } else if has_node_ip(nets[0].nodes, ip) {
        Some(route_chars(nets[0].nodes[node_ip_index(nets[0].nodes, ip)].node_id, nets[0].id))
    } else {
        spec_resolve(nets.drop_first(), ip)
    }
}

/// The endpoints of the given members on network `id`, in order.
pub open spec fn routes_of(nodes: Seq<NodeV>, id: Seq<char>) -> Seq<Seq<char>> {
    Seq::new(nodes.len(), |j: int| route_chars(nodes[j].node_id, id))
}

/// The endpoints of every member of network `n`, in membership order.
pub open spec fn spec_endpoints(n: NetV) -> Seq<Seq<char>> {
    routes_of(n.nodes, n.id)
}

/// What removing a whole list of peers does: removals apply in order.
pub open spec fn spec_remove_nodes(
    nets: Seq<NetV>,
    net_id: Seq<char>,
    ids: Seq<Seq<char>>,
) -> Result<Seq<NetV>, VpnError>
    decreases ids.len(),
{
    if ids.len() == 0 {
        Ok(nets)
    } else {
        match spec_remove_node(nets, net_id, ids[0]) {
            Ok(m) => spec_remove_nodes(m, net_id, ids.drop_first()),
            Err(e) => Err(e),
        }
    }
}

/// The identifiers of the registered networks, in order.
pub open spec fn net_ids(nets: Seq<NetV>) -> Seq<Seq<char>> {
    Seq::new(nets.len(), |i: int| nets[i].id)
}

/// An aligned base address leaves room for the whole network below the top
/// of the 32-bit address space.
pub proof fn lemma_base_bound(addr: u32, prefix: u8)
    requires
        prefix <= 32,
    ensures
        base_of(addr, prefix) + net_size_spec(prefix) <= 0x100000000,
{
    let size: int = net_size_spec(prefix) as int;
    let base: int = base_of(addr, prefix) as int;
    lemma_pow2_pos((32 - prefix) as nat);
    lemma_pow2_adds((32 - prefix) as nat, prefix as nat);
    lemma2_to64();
    assert(size * pow2(prefix as nat) == 0x100000000);
    vstd::arithmetic::div_mod::lemma_fundamental_div_mod(addr as int, size);
    let q: int = addr as int / size;
    assert(base == size * q);
    let p: int = pow2(prefix as nat) as int;
    assert(size * q < size * p);
    assert(q < p) by (nonlinear_arith)
        requires
            size > 0,
            size * q < size * p,
    ;
    assert(size * q + size <= size * p) by (nonlinear_arith)
        requires
            size > 0,
            q < p,
    ;
}

/// With at most 30 prefix bits the network spans at least four addresses.
pub proof fn lemma_net_size_at_least(prefix: u8)
    requires
        prefix <= 30,
    ensures
        net_size_spec(prefix) >= 4,
{
    lemma2_to64();
    if ((32 - prefix) as nat) > 2 {
        vstd::arithmetic::power2::lemma_pow2_strictly_increases(2, (32 - prefix) as nat);
    }
}

/// Under distinct identifiers, an index that carries `id` is the index
/// `net_index` names.
pub proof fn lemma_net_index_of(nets: Seq<NetV>, id: Seq<char>, k: int)
    requires
        forall|i: int, j: int| 0 <= i < j < nets.len() ==> nets[i].id != nets[j].id,
        0 <= k < nets.len(),
        nets[k].id == id,
    ensures
        has_network(nets, id),
        net_index(nets, id) == k,
{
    assert(has_network(nets, id));
    let i = net_index(nets, id);
    assert(0 <= i < nets.len() && nets[i].id == id);
    if i < k {
        assert(nets[i].id != nets[k].id);
    } else if k < i {
        assert(nets[k].id != nets[i].id);
    }
}

/// Under distinct peers, an index that carries `node_id` is the index
/// `node_id_index` names.
pub proof fn lemma_node_id_index_of(nodes: Seq<NodeV>, node_id: Seq<char>, j: int)
    requires
        forall|k: int, l: int|
            0 <= k < l < nodes.len() ==> nodes[k].node_id != nodes[l].node_id,
        0 <= j < nodes.len(),
        nodes[j].node_id == node_id,
    ensures
        has_node_id(nodes, node_id),
        node_id_index(nodes, node_id) == j,
{
    assert(has_node_id(nodes, node_id));
    let i = node_id_index(nodes, node_id);
    assert(0 <= i < nodes.len() && nodes[i].node_id == node_id);
    if i < j {
        assert(nodes[i].node_id != nodes[j].node_id);
    } else if j < i {
        assert(nodes[j].node_id != nodes[i].node_id);
    }
}

/// Under distinct addresses, an index that carries `ip` is the index
/// `node_ip_index` names.
pub proof fn lemma_node_ip_index_of(nodes: Seq<NodeV>, ip: u32, j: int)
    requires
        forall|k: int, l: int| 0 <= k < l < nodes.len() ==> nodes[k].ip != nodes[l].ip,
        0 <= j < nodes.len(),
        nodes[j].ip == ip,
    ensures
        has_node_ip(nodes, ip),
        node_ip_index(nodes, ip) == j,
{
    assert(has_node_ip(nodes, ip));
    let i = node_ip_index(nodes, ip);
    assert(0 <= i < nodes.len() && nodes[i].ip == ip);
    if i < j {
        assert(nodes[i].ip != nodes[j].ip);
    } else if j < i {
        assert(nodes[j].ip != nodes[i].ip);
    }
}

/// The routing endpoint of peer `node_id` on network `net_id`.
pub fn gsb_endpoint(node_id: &str, net_id: &str) -> (r: String)
    ensures
        r@ == route_chars(node_id@, net_id@),
{
    let mut s = String::from_str("/net/");
    s.append(node_id);
    s.append("/vpn/");
    s.append(net_id);
    assert(s@ =~= route_chars(node_id@, net_id@));
    s
}

/// A copy of a membership list, entry for entry.
fn clone_nodes(nodes: &Vec<Node>) -> (r: Vec<Node>)
    ensures
        r.deep_view() == nodes.deep_view(),
{
    let mut r: Vec<Node> = Vec::new();
    let mut i: usize = 0;
    while i < nodes.len()
        invariant
            i <= nodes@.len(),
            r.deep_view() == nodes.deep_view().take(i as int),
        decreases nodes@.len() - i,
    {
        let ghost prev: Seq<NodeV> = r.deep_view();
        let d = nodes[i].duplicate();
        assert(d.deep_view() == nodes@[i as int].deep_view());
        r.push(d);
        assert(r@.len() == prev.len() + 1);
        assert forall|j: int| 0 <= j < r@.len() implies r.deep_view()[j] == nodes.deep_view().take(
            i + 1,
        )[j] by {
            if j < i {
                assert(prev[j] == nodes.deep_view().take(i as int)[j]);
            }
        }
        assert(r.deep_view() =~~= nodes.deep_view().take(i + 1));
        i = i + 1;
    }
    assert(r.deep_view() =~~= nodes.deep_view());
    r
}

impl Networks {
    /// The registry is internally consistent.
    pub open spec fn wf(&self) -> bool {
        networks_wf(self@)
    }

    /// An empty registry, as the relay starts with.
    pub fn new() -> (r: Networks)
        ensures
            r@ == Seq::<NetV>::empty(),
            r.wf(),
    {
        let r = Networks { networks: Vec::new() };
        proof {
            assert(r@ =~~= Seq::<NetV>::empty());
        }
        r
    }

    /// Index of the network named `id`, if registered.
    fn find_network(&self, id: &String) -> (r: Option<usize>)
        ensures
            match r {
                Some(k) => k < self@.len() && self@[k as int].id == id@,
                None => !has_network(self@, id@),
            },
    {
        let mut i: usize = 0;
        while i < self.networks.len()
            invariant
                i <= self@.len(),
                self@.len() == self.networks@.len(),
                forall|j: int| 0 <= j < i ==> self@[j].id != id@,
            decreases self@.len() - i,
        {
            if self.networks[i].id == *id {
                assert(self@[i as int].id == id@);
                return Some(i);
            }
            i = i + 1;
        }
        proof {
            if has_network(self@, id@) {
                let w = choose|j: int| 0 <= j < self@.len() && self@[j].id == id@;
                assert(self@[w].id != id@);
            }
        }
        None
    }

    /// Registers an empty virtual network with the given identifier and
    /// address space; the identifier must be new and the space must leave at
    /// least two usable hosts.  On rejection the registry is unchanged.
    pub fn add_network(&mut self, id: String, addr: u32, prefix: u8) -> (r: Result<(), VpnError>)
        requires
            old(self).wf(),
        ensures
            final(self).wf(),
            match r {
                Ok(()) => spec_add_network(old(self)@, id@, addr, prefix) == Ok::<
                    Seq<NetV>,
                    VpnError,
                >(final(self)@),
                Err(e) => spec_add_network(old(self)@, id@, addr, prefix) == Err::<
                    Seq<NetV>,
                    VpnError,
                >(e) && final(self)@ == old(self)@,
            },
    {
        match self.find_network(&id) {
            Some(k) => {
                proof {
                    assert(has_network(self@, id@));
                }
                Err(VpnError::DuplicateNetwork)
            },
            None => {
                if prefix > 30 {
                    Err(VpnError::InvalidAddressSpace)
                } else {
                    let base = crate::addr::net_base(addr, prefix);
                    let ghost before: Seq<NetV> = self@;
                    let net = VirtualNetwork { id, base, prefix, nodes: Vec::new() };
                    let ghost netv: NetV = net@;
                    self.networks.push(net);
                    proof {
                        lemma_base_bound(addr, prefix);
                        assert(netv.nodes =~~= Seq::<NodeV>::empty());
                        assert(self@ =~~= before.push(netv));
                        assert forall|i: int, j: int|
                            0 <= i < j < self@.len() implies self@[i].id != self@[j].id by {
                            if j == self@.len() - 1 {
                                if self@[i].id == netv.id {
                                    assert(has_network(before, netv.id));
                                }
                            }
                        }
                        assert(net_wf(netv));
                        assert(spec_add_network(before, netv.id, addr, prefix) == Ok::<
                            Seq<NetV>,
                            VpnError,
                        >(self@));
                    }
                    Ok(())
                }
            },
        }
    }

    /// The identifiers of every registered network, in registration order.
    pub fn network_ids(&self) -> (r: Vec<String>)
        ensures
            r.deep_view() == net_ids(self@),
    {
        let mut r: Vec<String> = Vec::new();
        let mut i: usize = 0;
        while i < self.networks.len()
            invariant
                i <= self@.len(),
                self@.len() == self.networks@.len(),
                r.deep_view() == net_ids(self@.take(i as int)),
            decreases self@.len() - i,
        {
            let ghost prev: Seq<Seq<char>> = r.deep_view();
            let c = self.networks[i].id.clone();
            assert(c@ == self@[i as int].id);
            assert(prev == net_ids(self@.take(i as int)));
            assert(prev.len() == i);
            assert(r@.len() == i);
            r.push(c);
            assert(r@.len() == i + 1);
            assert forall|j: int| 0 <= j < r@.len() implies r.deep_view()[j] == net_ids(
                self@.take(i + 1),
            )[j] by {
                assert(net_ids(self@.take(i + 1))[j] == self@[j].id);
                if j < i {
                    assert(r.deep_view()[j] == prev[j]);
                    assert(prev[j] == net_ids(self@.take(i as int))[j]);
                } else {
                    assert(r.deep_view()[j] == r@[j]@);
                }
            }
            assert(r.deep_view() =~~= net_ids(self@.take(i + 1)));
            i = i + 1;
        }
        assert(self@.take(self@.len() as int) =~= self@);
        assert(r.deep_view() =~~= net_ids(self@));
        r
    }

    /// Assigns `ip` to `node_id` on the named network (moving the peer if it
    /// is already a member), or rejects the request and changes nothing:
    /// `UnknownNetwork` when the network is not registered,
    /// `AddressOutOfRange` when `ip` is no usable host address or is the
    /// gateway, `AddressInUse` when a different peer already holds `ip`.
    #[verifier::loop_isolation(false)]
    pub fn add_node(&mut self, network_id: &String, ip: u32, node_id: &String) -> (r: Result<
        (),
        VpnError,
    >)
        requires
            old(self).wf(),
        ensures
            final(self).wf(),
            match r {
                Ok(()) => spec_add_node(old(self)@, network_id@, ip, node_id@) == Ok::<
                    Seq<NetV>,
                    VpnError,
                >(final(self)@),
                Err(e) => spec_add_node(old(self)@, network_id@, ip, node_id@) == Err::<
                    Seq<NetV>,
                    VpnError,
                >(e) && final(self)@ == old(self)@,
            },
    {
        let k = match self.find_network(network_id) {
            None => {
                return Err(VpnError::UnknownNetwork);
            },
            Some(k) => k,
        };
        proof {
            lemma_net_index_of(self@, network_id@, k as int);
        }
        let ghost n: NetV = self@[k as int];
        let base = self.networks[k].base;
        let prefix = self.networks[k].prefix;
        let mut new_nodes = clone_nodes(&self.networks[k].nodes);
        match add_to_net(&mut new_nodes, Ghost(n), base, prefix, ip, node_id) {
            Err(e) => Err(e),
            Ok(()) => {
                let ghost updated: Seq<NodeV> = new_nodes.deep_view();
                self.networks[k].nodes = new_nodes;
                proof {
                    let nets0 = old(self)@;
                    let n2 = NetV { nodes: updated, ..n };
                    assert(self@ =~~= nets0.update(k as int, n2));
                    lemma_update_net_wf(nets0, k as int, n2);
                }
                Ok(())
            },
        }
    }
}

/// Validates one membership against a network and applies it to the scratch
/// member list, or rejects it and leaves the list unchanged.
#[verifier::loop_isolation(false)]
fn add_to_net(
    nodes: &mut Vec<Node>,
    Ghost(n): Ghost<NetV>,
    base: u32,
    prefix: u8,
    ip: u32,
    node_id: &String,
) -> (r: Result<(), VpnError>)
    requires
        net_wf(n),
        old(nodes).deep_view() == n.nodes,
        base == n.base,
        prefix == n.prefix,
    ensures
        match r {
            Ok(()) => spec_add_to_net(n, ip, node_id@) == Ok::<Seq<NodeV>, VpnError>(
                final(nodes).deep_view(),
            ) && net_wf(NetV { nodes: final(nodes).deep_view(), ..n }),
            Err(e) => spec_add_to_net(n, ip, node_id@) == Err::<Seq<NodeV>, VpnError>(e)
                && final(nodes)@ == old(nodes)@,
        },
{
    proof {
        lemma_net_size_at_least(prefix);
    }
    let size: u64 = crate::addr::net_size(prefix);
    let in_range: bool = (base as u64) < (ip as u64) && (ip as u64) < (base as u64) + size - 1;
    if !in_range || ip == base + 1 {
        assert(!net_contains_host(n, ip) || ip == net_gateway(n));
        return Err(VpnError::AddressOutOfRange);
    }
    assert(net_contains_host(n, ip) && ip != net_gateway(n));
    let ghost nodes0: Seq<NodeV> = n.nodes;
    let mut found: Option<usize> = None;
    let mut j: usize = 0;
    while j < nodes.len()
        invariant
            j <= nodes0.len(),
            forall|l: int| 0 <= l < j ==> !(nodes0[l].ip == ip && nodes0[l].node_id != node_id@),
            match found {
                Some(f) => f < j && nodes0[f as int].node_id == node_id@,
                None => forall|l: int| 0 <= l < j ==> nodes0[l].node_id != node_id@,
            },
        decreases nodes0.len() - j,
    {
        if nodes[j].ip == ip && !(nodes[j].node_id == *node_id) {
            assert(nodes0[j as int].ip == ip && nodes0[j as int].node_id != node_id@);
            assert(ip_conflict(nodes0, ip, node_id@));
            return Err(VpnError::AddressInUse);
        }
        if nodes[j].node_id == *node_id {
            found = Some(j);
        }
        j = j + 1;
    }
    proof {
        if ip_conflict(nodes0, ip, node_id@) {
            let w = choose|l: int|
                0 <= l < nodes0.len() && nodes0[l].ip == ip && nodes0[l].node_id != node_id@;
            assert(!(nodes0[w].ip == ip && nodes0[w].node_id != node_id@));
        }
    }
    assert(!ip_conflict(nodes0, ip, node_id@));
    let entry = Node { ip, node_id: node_id.clone() };
    match found {
        Some(f) => {
            proof {
                lemma_node_id_index_of(nodes0, node_id@, f as int);
            }
            nodes[f] = entry;
            assert(nodes.deep_view() =~~= upsert_node(nodes0, ip, node_id@));
        },
        None => {
            proof {
                if has_node_id(nodes0, node_id@) {
                    let w = choose|l: int| 0 <= l < nodes0.len() && nodes0[l].node_id == node_id@;
                    assert(nodes0[w].node_id != node_id@);
                }
            }
            nodes.push(entry);
            assert(nodes.deep_view() =~~= upsert_node(nodes0, ip, node_id@));
        },
    }
    proof {
        lemma_upsert_wf(n, ip, node_id@);
    }
    Ok(())
}

/// Replacing one network by a well-formed network with the same identifier
/// keeps the registry well formed.
proof fn lemma_update_net_wf(nets: Seq<NetV>, k: int, n2: NetV)
    requires
        networks_wf(nets),
        0 <= k < nets.len(),
        net_wf(n2),
        n2.id == nets[k].id,
    ensures
        networks_wf(nets.update(k, n2)),
{
    let nets2 = nets.update(k, n2);
    assert forall|a: int| 0 <= a < nets2.len() implies net_wf(#[trigger] nets2[a]) by {
        if a != k {
            assert(nets2[a] == nets[a]);
        }
    }
    assert forall|a: int, b: int| 0 <= a < b < nets2.len() implies nets2[a].id != nets2[b].id by {
        assert(nets[a].id != nets[b].id);
    }
}

impl Networks {
    /// Removes every membership of peer `node_id` from the named network; a
    /// peer with no membership is not an error, an unknown network is.
    #[verifier::loop_isolation(false)]
    pub fn remove_node(&mut self, network_id: &String, node_id: &String) -> (r: Result<
        (),
        VpnError,
    >)
        requires
            old(self).wf(),
        ensures
            final(self).wf(),
            match r {
                Ok(()) => spec_remove_node(old(self)@, network_id@, node_id@) == Ok::<
                    Seq<NetV>,
                    VpnError,
                >(final(self)@),
                Err(e) => spec_remove_node(old(self)@, network_id@, node_id@) == Err::<
                    Seq<NetV>,
                    VpnError,
                >(e) && final(self)@ == old(self)@,
            },
    {
        let k = match self.find_network(network_id) {
            None => {
                return Err(VpnError::UnknownNetwork);
            },
            Some(k) => k,
        };
        proof {
            lemma_net_index_of(self@, network_id@, k as int);
        }
        let ghost n: NetV = self@[k as int];
        let ghost nodes0: Seq<NodeV> = n.nodes;
        let mut kept: Vec<Node> = Vec::new();
        let mut j: usize = 0;
        proof {
            reveal(Seq::filter);
            assert(kept.deep_view() =~~= remove_peer(nodes0.take(0), node_id@));
        }
        while j < self.networks[k].nodes.len()
            invariant
                j <= nodes0.len(),
                kept.deep_view() == remove_peer(nodes0.take(j as int), node_id@),
            decreases nodes0.len() - j,
        {
            let keep_it: bool = !(self.networks[k].nodes[j].node_id == *node_id);
            if keep_it {
                let d = self.networks[k].nodes[j].duplicate();
                assert(d.deep_view() == nodes0[j as int]);
                kept.push(d);
            }
            proof {
                reveal(Seq::filter);
                let t1 = nodes0.take(j + 1);
                assert(t1.drop_last() =~= nodes0.take(j as int));
                assert(t1.last() == nodes0[j as int]);
                assert(kept.deep_view() =~~= remove_peer(t1, node_id@));
            }
            j = j + 1;
        }
        proof {
            assert(nodes0.take(nodes0.len() as int) =~= nodes0);
        }
        let ghost updated: Seq<NodeV> = kept.deep_view();
        self.networks[k].nodes = kept;
        proof {
            let nets0 = old(self)@;
            let n2 = NetV { nodes: updated, ..n };
            assert(self@ =~~= nets0.update(k as int, n2));
            assert forall|a: int| 0 <= a < updated.len() implies node_ok(
                n2,
                #[trigger] updated[a],
            ) by {
                lemma_remove_peer_subset(nodes0, node_id@, a);
                let b = choose|b: int| 0 <= b < nodes0.len() && updated[a] == nodes0[b];
                assert(node_ok(n, nodes0[b]));
            }
            assert forall|a: int, b: int|
                0 <= a < b < updated.len() implies updated[a].ip != updated[b].ip
                && updated[a].node_id != updated[b].node_id by {
                lemma_remove_peer_distinct(nodes0, node_id@, a, b);
            }
            assert(net_wf(n2));
            lemma_update_net_wf(nets0, k as int, n2);
        }
        Ok(())
    }

    /// The routing endpoint for `ip`, if some member of some network holds
    /// it; networks registered earlier win.
    #[verifier::loop_isolation(false)]
    pub fn resolve(&self, ip: u32) -> (r: Option<String>)
        requires
            self.wf(),
        ensures
            match r {
                Some(ep) => spec_resolve(self@, ip) == Some(ep@),
                None => spec_resolve(self@, ip) is None,
            },
    {
        let mut i: usize = 0;
        assert(self@.skip(0) =~= self@);
        while i < self.networks.len()
            invariant
                i <= self@.len(),
                spec_resolve(self@, ip) == spec_resolve(self@.skip(i as int), ip),
            decreases self@.len() - i,
        {
            let ghost n: NetV = self@[i as int];
            assert(self@.skip(i as int)[0] == n);
            let mut j: usize = 0;
            while j < self.networks[i].nodes.len()
                invariant
                    i < self@.len(),
                    j <= n.nodes.len(),
                    forall|l: int| 0 <= l < j ==> n.nodes[l].ip != ip,
                decreases n.nodes.len() - j,
            {
                if self.networks[i].nodes[j].ip == ip {
                    proof {
                        lemma_node_ip_index_of(n.nodes, ip, j as int);
                    }
                    let ep = gsb_endpoint(
                        self.networks[i].nodes[j].node_id.as_str(),
                        self.networks[i].id.as_str(),
                    );
                    assert(spec_resolve(self@.skip(i as int), ip) == Some(ep@));
                    return Some(ep);
                }
                j = j + 1;
            }
            proof {
                if has_node_ip(n.nodes, ip) {
                    let w = choose|l: int| 0 <= l < n.nodes.len() && n.nodes[l].ip == ip;
                    assert(n.nodes[w].ip != ip);
                }
                assert(self@.skip(i as int).drop_first() =~= self@.skip(i + 1));
            }
            i = i + 1;
        }
        assert(self@.skip(i as int) =~= Seq::<NetV>::empty());
        None
    }
}

/// Every entry of a peer-filtered member list is an entry of the original.
proof fn lemma_remove_peer_subset(nodes: Seq<NodeV>, node_id: Seq<char>, a: int)
    requires
        0 <= a < remove_peer(nodes, node_id).len(),
    ensures
        exists|b: int| 0 <= b < nodes.len() && remove_peer(nodes, node_id)[a] == nodes[b],
    decreases nodes.len(),
{
    reveal(Seq::filter);
    let fr = remove_peer(nodes, node_id);
    let sub = nodes.drop_last();
    let frs = remove_peer(sub, node_id);
    if nodes.last().node_id != node_id && a == frs.len() {
        assert(fr[a] == nodes[nodes.len() - 1]);
    } else {
        lemma_remove_peer_subset(sub, node_id, a);
        let b = choose|b: int| 0 <= b < sub.len() && frs[a] == sub[b];
        assert(fr[a] == nodes[b]);
    }
}

/// Removing a peer keeps the remaining member entries pairwise distinct.
proof fn lemma_remove_peer_distinct(nodes: Seq<NodeV>, node_id: Seq<char>, a: int, b: int)
    requires
        forall|k: int, l: int|
            0 <= k < l < nodes.len() ==> nodes[k].ip != nodes[l].ip && nodes[k].node_id
                != nodes[l].node_id,
        0 <= a < b < remove_peer(nodes, node_id).len(),
    ensures
        remove_peer(nodes, node_id)[a].ip != remove_peer(nodes, node_id)[b].ip,
        remove_peer(nodes, node_id)[a].node_id != remove_peer(nodes, node_id)[b].node_id,
    decreases nodes.len(),
{
    reveal(Seq::filter);
    let fr = remove_peer(nodes, node_id);
    let sub = nodes.drop_last();
    let frs = remove_peer(sub, node_id);
    assert forall|k: int, l: int|
        0 <= k < l < sub.len() implies sub[k].ip != sub[l].ip && sub[k].node_id
        != sub[l].node_id by {
        assert(nodes[k].ip != nodes[l].ip && nodes[k].node_id != nodes[l].node_id);
    }
    if nodes.last().node_id != node_id && b == frs.len() {
        assert(fr[b] == nodes[nodes.len() - 1]);
        lemma_remove_peer_subset(sub, node_id, a);
        let w = choose|w: int| 0 <= w < sub.len() && frs[a] == sub[w];
        assert(nodes[w].ip != nodes[nodes.len() - 1].ip && nodes[w].node_id != nodes[nodes.len()
            - 1].node_id);
    } else {
        lemma_remove_peer_distinct(sub, node_id, a, b);
    }
}

impl Networks {
    /// The deduplicated endpoints of every member of the named network, in
    /// membership order; empty when the network is not registered.
    #[verifier::loop_isolation(false)]
    pub fn broadcast_endpoints(&self, network_id: &String) -> (r: Vec<String>)
        requires
            self.wf(),
        ensures
            has_network(self@, network_id@) ==> r.deep_view() == spec_endpoints(
                self@[net_index(self@, network_id@)],
            ),
            !has_network(self@, network_id@) ==> r.deep_view() == Seq::<Seq<char>>::empty(),
            forall|a: int, b: int|
                0 <= a < b < r.deep_view().len() ==> r.deep_view()[a] != r.deep_view()[b],
    {
        let mut r: Vec<String> = Vec::new();
        let k = match self.find_network(network_id) {
            None => {
                assert(r.deep_view() =~~= Seq::<Seq<char>>::empty());
                return r;
            },
            Some(k) => k,
        };
        proof {
            lemma_net_index_of(self@, network_id@, k as int);
        }
        let ghost n: NetV = self@[k as int];
        let mut j: usize = 0;
        assert(r.deep_view() =~~= routes_of(n.nodes.take(0), n.id));
        while j < self.networks[k].nodes.len()
            invariant
                j <= n.nodes.len(),
                r.deep_view() == routes_of(n.nodes.take(j as int), n.id),
            decreases n.nodes.len() - j,
        {
            let ghost prev: Seq<Seq<char>> = r.deep_view();
            let ep = gsb_endpoint(
                self.networks[k].nodes[j].node_id.as_str(),
                self.networks[k].id.as_str(),
            );
            assert(ep@ == route_chars(n.nodes[j as int].node_id, n.id));
            r.push(ep);
            proof {
                assert(prev == routes_of(n.nodes.take(j as int), n.id));
                assert(prev.len() == j);
                assert(r@.len() == j + 1);
                assert forall|l: int| 0 <= l < r@.len() implies r.deep_view()[l] == routes_of(
                    n.nodes.take(j + 1),
                    n.id,
                )[l] by {
                    if l < j {
                        assert(r.deep_view()[l] == prev[l]);
                        assert(prev[l] == routes_of(n.nodes.take(j as int), n.id)[l]);
                    }
                }
                assert(r.deep_view() =~~= routes_of(n.nodes.take(j + 1), n.id));
            }
            j = j + 1;
        }
        assert(n.nodes.take(n.nodes.len() as int) =~= n.nodes);
        assert(r.deep_view() == spec_endpoints(n));
        proof {
            assert forall|a: int, b: int|
                0 <= a < b < r.deep_view().len() implies r.deep_view()[a] != r.deep_view()[b] by {
                if r.deep_view()[a] == r.deep_view()[b] {
                    lemma_route_injective(n.nodes[a].node_id, n.nodes[b].node_id, n.id);
                }
            }
        }
        r
    }

    /// Applies a whole batch of membership additions atomically: the entries
    /// apply in order against the named network, and on the first rejection
    /// the registry is left exactly as it was before the call.
    #[verifier::loop_isolation(false)]
    pub fn add_nodes(&mut self, network_id: &String, entries: &Vec<Node>) -> (r: Result<
        (),
        VpnError,
    >)
        requires
            old(self).wf(),
        ensures
            final(self).wf(),
            !has_network(old(self)@, network_id@) ==> r == Err::<(), VpnError>(
                VpnError::UnknownNetwork,
            ) && final(self)@ == old(self)@,
            has_network(old(self)@, network_id@) ==> match r {
                Ok(()) => spec_add_nodes(old(self)@, network_id@, entries.deep_view()) == Ok::<
                    Seq<NetV>,
                    VpnError,
                >(final(self)@),
                Err(e) => spec_add_nodes(old(self)@, network_id@, entries.deep_view()) == Err::<
                    Seq<NetV>,
                    VpnError,
                >(e) && final(self)@ == old(self)@,
            },
    {
        let k = match self.find_network(network_id) {
            None => {
                return Err(VpnError::UnknownNetwork);
            },
            Some(k) => k,
        };
        proof {
            lemma_net_index_of(self@, network_id@, k as int);
        }
        let ghost nets0: Seq<NetV> = self@;
        let ghost n: NetV = self@[k as int];
        let ghost es: Seq<NodeV> = entries.deep_view();
        let mut cur = clone_nodes(&self.networks[k].nodes);
        let base = self.networks[k].base;
        let prefix = self.networks[k].prefix;
        let mut i: usize = 0;
        proof {
            assert(NetV { nodes: cur.deep_view(), ..n } =~= n);
            assert(nets0.update(k as int, n) =~= nets0);
            assert(es.take(0) =~= Seq::<NodeV>::empty());
        }
        while i < entries.len()
            invariant
                i <= es.len(),
                networks_wf(nets0.update(k as int, NetV { nodes: cur.deep_view(), ..n })),
                spec_add_nodes(nets0, network_id@, es.take(i as int)) == Ok::<Seq<NetV>, VpnError>(
                    nets0.update(k as int, NetV { nodes: cur.deep_view(), ..n }),
                ),
            decreases es.len() - i,
        {
            let ghost netsi: Seq<NetV> = nets0.update(k as int, NetV { nodes: cur.deep_view(), ..n });
            let ghost ni: NetV = NetV { nodes: cur.deep_view(), ..n };
            proof {
                lemma_net_index_of(netsi, network_id@, k as int);
            }
            let step = add_to_net(&mut cur, Ghost(ni), base, prefix, entries[i].ip, &entries[i].node_id);
            proof {
                lemma_add_nodes_step(nets0, network_id@, es, i as int, netsi);
            }
            match step {
                Err(e) => {
                    assert(spec_add_node(netsi, network_id@, es[i as int].ip, es[i as int].node_id)
                        == Err::<Seq<NetV>, VpnError>(e));
                    assert(spec_add_nodes(nets0, network_id@, es) == Err::<Seq<NetV>, VpnError>(e));
                    return Err(e);
                },
                Ok(()) => {
                    proof {
                        let n2 = NetV { nodes: cur.deep_view(), ..ni };
                        assert(spec_add_node(netsi, network_id@, es[i as int].ip, es[i as int].node_id)
                            == Ok::<Seq<NetV>, VpnError>(netsi.update(k as int, n2)));
                        assert(netsi.update(k as int, n2) =~= nets0.update(k as int, n2));
                        assert(NetV { nodes: cur.deep_view(), ..n } =~= n2);
                        lemma_update_net_wf(nets0, k as int, n2);
                    }
                },
            }
            i = i + 1;
        }
        proof {
            assert(es.take(es.len() as int) =~= es);
        }
        let ghost updated: Seq<NodeV> = cur.deep_view();
        self.networks[k].nodes = cur;
        proof {
            assert(self@ =~~= nets0.update(k as int, NetV { nodes: updated, ..n }));
        }
        Ok(())
    }

    /// Removes every listed peer from the named network, in order; an
    /// unknown network is an error, unknown peers are not.
    #[verifier::loop_isolation(false)]
    pub fn remove_nodes(&mut self, network_id: &String, node_ids: &Vec<String>) -> (r: Result<
        (),
        VpnError,
    >)
        requires
            old(self).wf(),
        ensures
            final(self).wf(),
            !has_network(old(self)@, network_id@) ==> r == Err::<(), VpnError>(
                VpnError::UnknownNetwork,
            ) && final(self)@ == old(self)@,
            has_network(old(self)@, network_id@) ==> r == Ok::<(), VpnError>(())
                && spec_remove_nodes(old(self)@, network_id@, node_ids.deep_view()) == Ok::<
                Seq<NetV>,
                VpnError,
            >(final(self)@),
    {
        match self.find_network(network_id) {
            None => {
                return Err(VpnError::UnknownNetwork);
            },
            Some(k) => {
                proof {
                    lemma_net_index_of(self@, network_id@, k as int);
                }
            },
        };
        let ghost nets0: Seq<NetV> = self@;
        let ghost ids: Seq<Seq<char>> = node_ids.deep_view();
        let mut i: usize = 0;
        proof {
            assert(ids.take(0) =~= Seq::<Seq<char>>::empty());
        }
        while i < node_ids.len()
            invariant
                i <= ids.len(),
                self.wf(),
                has_network(self@, network_id@),
                spec_remove_nodes(nets0, network_id@, ids.take(i as int)) == Ok::<
                    Seq<NetV>,
                    VpnError,
                >(self@),
            decreases ids.len() - i,
        {
            let ghost netsi: Seq<NetV> = self@;
            let step = self.remove_node(network_id, &node_ids[i]);
            proof {
                lemma_remove_nodes_step(nets0, network_id@, ids, i as int, netsi);
                assert(step is Ok);
                let m = spec_remove_node(netsi, network_id@, ids[i as int]);
                assert(m == Ok::<Seq<NetV>, VpnError>(self@));
                let kk = net_index(netsi, network_id@);
                assert(self@ == netsi.update(kk, NetV {
                    nodes: remove_peer(netsi[kk].nodes, ids[i as int]),
                    ..netsi[kk]
                }));
                assert(self@[kk].id == network_id@);
                assert(has_network(self@, network_id@));
            }
            i = i + 1;
        }
        proof {
            assert(ids.take(ids.len() as int) =~= ids);
        }
        Ok(())
    }
}

/// The step case of a batch addition: once the first `i` entries have
/// produced registry `m`, the whole batch behaves as entry `i` applied to
/// `m` followed by the remaining entries.
proof fn lemma_add_nodes_step(
    nets: Seq<NetV>,
    net_id: Seq<char>,
    entries: Seq<NodeV>,
    i: int,
    m: Seq<NetV>,
)
    requires
        0 <= i < entries.len(),
        spec_add_nodes(nets, net_id, entries.take(i)) == Ok::<Seq<NetV>, VpnError>(m),
    ensures
        spec_add_nodes(nets, net_id, entries.take(i + 1)) == (match spec_add_node(
            m,
            net_id,
            entries[i].ip,
            entries[i].node_id,
        ) {
            Ok(m2) => Ok::<Seq<NetV>, VpnError>(m2),
            Err(e) => Err(e),
        }),
        spec_add_node(m, net_id, entries[i].ip, entries[i].node_id) is Err
            ==> spec_add_nodes(nets, net_id, entries) == Err::<Seq<NetV>, VpnError>(
            spec_add_node(m, net_id, entries[i].ip, entries[i].node_id)->Err_0,
        ),
{
    lemma_add_nodes_split(nets, net_id, entries.take(i + 1), i);
    assert(entries.take(i + 1).take(i) =~= entries.take(i));
    assert(entries.take(i + 1).skip(i) =~= seq![entries[i]]);
    let one = seq![entries[i]];
    assert(one[0] == entries[i]);
    assert(one.drop_first() =~= Seq::<NodeV>::empty());
    let step = spec_add_node(m, net_id, entries[i].ip, entries[i].node_id);
    match step {
        Ok(m2) => {
            assert(spec_add_nodes(m2, net_id, one.drop_first()) == Ok::<Seq<NetV>, VpnError>(m2));
            assert(spec_add_nodes(m, net_id, one) == Ok::<Seq<NetV>, VpnError>(m2));
        },
        Err(e) => {
            assert(spec_add_nodes(m, net_id, one) == Err::<Seq<NetV>, VpnError>(e));
            lemma_add_nodes_split(nets, net_id, entries, i);
            assert(entries.skip(i)[0] == entries[i]);
            assert(spec_add_nodes(m, net_id, entries.skip(i)) == Err::<Seq<NetV>, VpnError>(e));
        },
    }
}

/// Splitting a batch addition at any point gives the same result as running
/// it in one piece.
proof fn lemma_add_nodes_split(nets: Seq<NetV>, net_id: Seq<char>, entries: Seq<NodeV>, i: int)
    requires
        0 <= i <= entries.len(),
    ensures
        spec_add_nodes(nets, net_id, entries) == (match spec_add_nodes(
            nets,
            net_id,
            entries.take(i),
        ) {
            Ok(m) => spec_add_nodes(m, net_id, entries.skip(i)),
            Err(e) => Err(e),
        }),
    decreases i,
{
    if i == 0 {
        assert(entries.take(0) =~= Seq::<NodeV>::empty());
        assert(entries.skip(0) =~= entries);
    } else {
        let e0 = entries[0];
        match spec_add_node(nets, net_id, e0.ip, e0.node_id) {
            Err(e) => {
                assert(entries.take(i)[0] == e0);
            },
            Ok(m1) => {
                lemma_add_nodes_split(m1, net_id, entries.drop_first(), i - 1);
                assert(entries.take(i)[0] == e0);
                assert(entries.take(i).drop_first() =~= entries.drop_first().take(i - 1));
                assert(entries.skip(i) =~= entries.drop_first().skip(i - 1));
            },
        }
    }
}

/// The step case of a batch removal, as for additions.
proof fn lemma_remove_nodes_step(
    nets: Seq<NetV>,
    net_id: Seq<char>,
    ids: Seq<Seq<char>>,
    i: int,
    m: Seq<NetV>,
)
    requires
        0 <= i < ids.len(),
        spec_remove_nodes(nets, net_id, ids.take(i)) == Ok::<Seq<NetV>, VpnError>(m),
    ensures
        spec_remove_node(m, net_id, ids[i]) is Ok ==> spec_remove_nodes(
            nets,
            net_id,
            ids.take(i + 1),
        ) == spec_remove_node(m, net_id, ids[i]),
{
    lemma_remove_nodes_split(nets, net_id, ids.take(i + 1), i);
    assert(ids.take(i + 1).take(i) =~= ids.take(i));
    assert(ids.take(i + 1).skip(i) =~= seq![ids[i]]);
    let one = seq![ids[i]];
    assert(one[0] == ids[i]);
    assert(one.drop_first() =~= Seq::<Seq<char>>::empty());
    let step = spec_remove_node(m, net_id, ids[i]);
    if step is Ok {
        let m2 = step->Ok_0;
        assert(spec_remove_nodes(m2, net_id, one.drop_first()) == Ok::<Seq<NetV>, VpnError>(m2));
        assert(spec_remove_nodes(m, net_id, one) == Ok::<Seq<NetV>, VpnError>(m2));
    }
}

/// Splitting a batch removal at any point gives the same result as running
/// it in one piece.
proof fn lemma_remove_nodes_split(nets: Seq<NetV>, net_id: Seq<char>, ids: Seq<Seq<char>>, i: int)
    requires
        0 <= i <= ids.len(),
    ensures
        spec_remove_nodes(nets, net_id, ids) == (match spec_remove_nodes(
            nets,
            net_id,
            ids.take(i),
        ) {
            Ok(m) => spec_remove_nodes(m, net_id, ids.skip(i)),
            Err(e) => Err(e),
        }),
    decreases i,
{
    if i == 0 {
        assert(ids.take(0) =~= Seq::<Seq<char>>::empty());
        assert(ids.skip(0) =~= ids);
    } else {
        let e0 = ids[0];
        match spec_remove_node(nets, net_id, e0) {
            Err(e) => {
                assert(ids.take(i)[0] == e0);
            },
            Ok(m1) => {
                lemma_remove_nodes_split(m1, net_id, ids.drop_first(), i - 1);
                assert(ids.take(i)[0] == e0);
                assert(ids.take(i).drop_first() =~= ids.drop_first().take(i - 1));
                assert(ids.skip(i) =~= ids.drop_first().skip(i - 1));
            },
        }
    }
}

/// Routing endpoints on one network are distinct for distinct peers.
pub proof fn lemma_route_injective(p1: Seq<char>, p2: Seq<char>, net_id: Seq<char>)
    requires
        route_chars(p1, net_id) == route_chars(p2, net_id),
    ensures
        p1 == p2,
{
    let a = "/net/"@;
    let b = "/vpn/"@;
    let r1 = route_chars(p1, net_id);
    let r2 = route_chars(p2, net_id);
    assert(r1.len() == a.len() + p1.len() + b.len() + net_id.len());
    assert(r2.len() == a.len() + p2.len() + b.len() + net_id.len());
    assert(p1.len() == p2.len());
    assert forall|i: int| 0 <= i < p1.len() implies p1[i] == p2[i] by {
        assert(r1[a.len() + i] == p1[i]);
        assert(r2[a.len() + i] == p2[i]);
    }
    assert(p1 =~= p2);
}

impl Networks {
    /// Number of registered networks.
    pub fn len(&self) -> (r: usize)
        ensures
            r == self@.len(),
    {
        self.networks.len()
    }

    /// The base address and prefix length of the network at index `k`.
    pub fn net_params(&self, k: usize) -> (r: (u32, u8))
        requires
            k < self@.len(),
        ensures
            r.0 == self@[k as int].base,
            r.1 == self@[k as int].prefix,
    {
        (self.networks[k].base, self.networks[k].prefix)
    }

    /// Number of members of the network at index `k`.
    pub fn node_count(&self, k: usize) -> (r: usize)
        requires
            k < self@.len(),
        ensures
            r == self@[k as int].nodes.len(),
    {
        self.networks[k].nodes.len()
    }

    /// The routing endpoint of member `j` of the network at index `k`.
    pub fn node_endpoint(&self, k: usize, j: usize) -> (r: String)
        requires
            k < self@.len(),
            j < self@[k as int].nodes.len(),
        ensures
            r@ == route_chars(self@[k as int].nodes[j as int].node_id, self@[k as int].id),
    {
        gsb_endpoint(self.networks[k].nodes[j].node_id.as_str(), self.networks[k].id.as_str())
    }
}

/// Every entry of a peer-filtered member list belongs to another peer.
proof fn lemma_remove_peer_pred(nodes: Seq<NodeV>, node_id: Seq<char>, a: int)
    requires
        0 <= a < remove_peer(nodes, node_id).len(),
    ensures
        remove_peer(nodes, node_id)[a].node_id != node_id,
    decreases nodes.len(),
{
    reveal(Seq::filter);
    let fr = remove_peer(nodes, node_id);
    let sub = nodes.drop_last();
    let frs = remove_peer(sub, node_id);
    if nodes.last().node_id != node_id && a == frs.len() {
        assert(fr[a] == nodes[nodes.len() - 1]);
    } else {
        lemma_remove_peer_pred(sub, node_id, a);
    }
}

/// When no member of any network holds `ip`, nothing resolves.
pub proof fn lemma_resolve_none(nets: Seq<NetV>, ip: u32)
    requires
        forall|i: int| 0 <= i < nets.len() ==> !has_node_ip(#[trigger] nets[i].nodes, ip),
    ensures
        spec_resolve(nets, ip) is None,
    decreases nets.len(),
{
    if nets.len() > 0 {
        assert(!has_node_ip(nets[0].nodes, ip));
        assert forall|i: int|
            0 <= i < nets.drop_first().len() implies !has_node_ip(
            #[trigger] nets.drop_first()[i].nodes,
            ip,
        ) by {
            assert(nets.drop_first()[i] == nets[i + 1]);
        }
        lemma_resolve_none(nets.drop_first(), ip);
    }
}

/// Resolve after remove: once the peer that was assigned `ip` on a network
/// is removed from that network again, `ip` no longer resolves.  The law
/// holds whenever no other network also assigns `ip` to one of its members
/// (a second network whose member holds the same address would still
/// resolve it).
pub proof fn lemma_resolve_after_remove(
    nets: Seq<NetV>,
    net_id: Seq<char>,
    ip: u32,
    peer: Seq<char>,
    nets1: Seq<NetV>,
    nets2: Seq<NetV>,
)
    requires
        networks_wf(nets),
        spec_add_node(nets, net_id, ip, peer) == Ok::<Seq<NetV>, VpnError>(nets1),
        spec_remove_node(nets1, net_id, peer) == Ok::<Seq<NetV>, VpnError>(nets2),
        forall|i: int|
            0 <= i < nets.len() && nets[i].id != net_id ==> !has_node_ip(
                #[trigger] nets[i].nodes,
                ip,
            ),
    ensures
        spec_resolve(nets2, ip) is None,
{
    let k = net_index(nets, net_id);
    let n = nets[k];
    let nodes0 = n.nodes;
    let nodes1 = upsert_node(nodes0, ip, peer);
    assert(nets1 == nets.update(k, NetV { nodes: nodes1, ..n }));
    assert forall|i: int, j: int|
        0 <= i < j < nets1.len() implies nets1[i].id != nets1[j].id by {
        assert(nets[i].id != nets[j].id);
    }
    lemma_net_index_of(nets1, net_id, k);
    let nodes2 = remove_peer(nodes1, peer);
    assert(nets2 == nets1.update(k, NetV { nodes: nodes2, ..nets1[k] }));
    assert(!ip_conflict(nodes0, ip, peer));
    assert forall|a: int| 0 <= a < nodes2.len() implies nodes2[a].ip != ip by {
        lemma_remove_peer_subset(nodes1, peer, a);
        lemma_remove_peer_pred(nodes1, peer, a);
        let b = choose|b: int| 0 <= b < nodes1.len() && nodes2[a] == nodes1[b];
        if nodes2[a].ip == ip {
            if has_node_id(nodes0, peer) {
                let f = node_id_index(nodes0, peer);
                if b != f {
                    assert(nodes1[b] == nodes0[b]);
                    assert(!(nodes0[b].ip == ip && nodes0[b].node_id != peer));
                }
            } else {
                if b < nodes0.len() {
                    assert(nodes1[b] == nodes0[b]);
                    assert(!(nodes0[b].ip == ip && nodes0[b].node_id != peer));
                }
            }
        }
    }
    assert forall|i: int|
        0 <= i < nets2.len() implies !has_node_ip(#[trigger] nets2[i].nodes, ip) by {
        if i == k {
            if has_node_ip(nodes2, ip) {
                let w = choose|w: int| 0 <= w < nodes2.len() && nodes2[w].ip == ip;
                assert(nodes2[w].ip != ip);
            }
        } else {
            assert(nets2[i] == nets[i]);
            assert(nets[i].id != nets[k].id);
        }
    }
    lemma_resolve_none(nets2, ip);
}

/// Upserting a well-placed, unconflicted membership keeps a network well
/// formed.
proof fn lemma_upsert_wf(n: NetV, ip: u32, node_id: Seq<char>)
    requires
        net_wf(n),
        net_contains_host(n, ip),
        ip != net_gateway(n),
        !ip_conflict(n.nodes, ip, node_id),
    ensures
        net_wf(NetV { nodes: upsert_node(n.nodes, ip, node_id), ..n }),
{
    let nodes = n.nodes;
    let new = upsert_node(nodes, ip, node_id);
    let n2 = NetV { nodes: new, ..n };
    let nd = NodeV { ip, node_id };
    assert(node_ok(n2, nd));
    if has_node_id(nodes, node_id) {
        let f = node_id_index(nodes, node_id);
        assert(0 <= f < nodes.len() && nodes[f].node_id == node_id);
        assert forall|k: int| 0 <= k < new.len() implies node_ok(n2, #[trigger] new[k]) by {
            if k != f {
                assert(node_ok(n, nodes[k]));
            }
        }
        assert forall|k: int, l: int|
            0 <= k < l < new.len() implies new[k].ip != new[l].ip && new[k].node_id
            != new[l].node_id by {
            if k != f && l != f {
                assert(nodes[k].ip != nodes[l].ip && nodes[k].node_id != nodes[l].node_id);
            } else if k == f {
                assert(new[l] == nodes[l]);
                if nodes[l].ip == ip {
                    assert(nodes[l].node_id == node_id);
                }
            } else {
                assert(new[k] == nodes[k]);
                if nodes[k].ip == ip {
                    assert(nodes[k].node_id == node_id);
                }
            }
        }
    } else {
        assert forall|k: int| 0 <= k < new.len() implies node_ok(n2, #[trigger] new[k]) by {
            if k < nodes.len() {
                assert(node_ok(n, nodes[k]));
            }
        }
        assert forall|k: int, l: int|
            0 <= k < l < new.len() implies new[k].ip != new[l].ip && new[k].node_id
            != new[l].node_id by {
            if l < nodes.len() {
                assert(nodes[k].ip != nodes[l].ip && nodes[k].node_id != nodes[l].node_id);
            } else {
                assert(new[k] == nodes[k]);
                if nodes[k].ip == ip {
                    assert(nodes[k].node_id == node_id);
                }
                if nodes[k].node_id == node_id {
                    assert(has_node_id(nodes, node_id));
                }
            }
        }
    }
}

} // verus!
