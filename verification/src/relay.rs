//! The relay controller: lifecycle, egress forwarding decisions, ingress
//! framing, and the control plane.
//!
//! A [`Vpn`] owns the topology table and the decode buffer and moves through
//! the phases not-started, active, stopping, stopped.  It makes every
//! decision of the relay but performs no I/O itself: starting it yields the
//! routes to register on the message bus, feeding it a chunk of the local
//! transport's byte stream yields the remote calls to issue, an ingress
//! frame yields the bytes to write to the local transport, and stopping it
//! yields the routes to unbind.  The surrounding process owns the sockets
//! and the bus and carries those actions out.

use crate::codec::MAX_FRAME_SIZE;
use crate::codec::RxBuffer;
use crate::codec::decode_frames;
use crate::codec::decode_rest;
use crate::codec::encode_frame;
use crate::codec::frame_complete;
use crate::codec::write_prefix;
use crate::frame::CallV;
use crate::frame::RemoteCall;
use crate::frame::classify_frame;
use crate::frame::spec_egress_calls;
use crate::topology::NetV;
use crate::topology::Networks;
use crate::topology::Node;
use crate::topology::NodeV;
use crate::topology::VpnError;
use crate::topology::has_network;
use crate::topology::net_ids;
use crate::topology::networks_wf;
use crate::topology::route_chars;
use crate::topology::spec_add_network;
use crate::topology::spec_add_nodes;
use crate::topology::spec_remove_nodes;
use vstd::prelude::*;

verus! {

/// Lifecycle of the relay controller.
#[derive(Clone, Copy, Debug, PartialEq, Eq, Structural)]
pub enum RelayPhase {
    /// Built from a deployment, routes not yet registered.
    NotStarted,
    /// Routes registered, traffic flowing.
    Active,
    /// Shutdown requested, routes being unbound.
    Stopping,
    /// No longer consuming the local stream.
    Stopped,
}

/// One virtual network of a deployment descriptor: its identifier, address
/// space, this node's own address on it, and the remote peer memberships.
pub struct DeploymentNetwork {
    pub id: String,
    pub addr: u32,
    pub prefix: u8,
    pub node_ip: u32,
    pub nodes: Vec<Node>,
}

/// Mathematical model of a [`DeploymentNetwork`].
#[verifier::ext_equal]
pub ghost struct DeploymentNetworkV {
    pub id: Seq<char>,
    pub addr: u32,
    pub prefix: u8,
    pub node_ip: u32,
    pub nodes: Seq<NodeV>,
}

/// The deployment descriptor the relay is started from.
pub struct Deployment {
    pub networks: Vec<DeploymentNetwork>,
    pub hosts: Vec<String>,
}

/// Mathematical model of a [`Deployment`].
#[verifier::ext_equal]
pub ghost struct DeploymentV {
    pub networks: Seq<DeploymentNetworkV>,
    pub hosts: Seq<Seq<char>>,
}

impl View for DeploymentNetwork {
    type V = DeploymentNetworkV;

    open spec fn view(&self) -> DeploymentNetworkV {
        DeploymentNetworkV {
            id: self.id@,
            addr: self.addr,
            prefix: self.prefix,
            node_ip: self.node_ip,
            nodes: self.nodes.deep_view(),
        }
    }
}

impl DeepView for DeploymentNetwork {
    type V = DeploymentNetworkV;

    open spec fn deep_view(&self) -> DeploymentNetworkV {
        self@
    }
}

impl View for Deployment {
    type V = DeploymentV;

    open spec fn view(&self) -> DeploymentV {
        DeploymentV { networks: self.networks.deep_view(), hosts: self.hosts.deep_view() }
    }
}

/// A control message delivered on a network's control route.
pub enum VpnControl {
    /// Add the listed memberships to the named network, atomically.
    AddNodes { network_id: String, nodes: Vec<Node> },
    /// Remove every membership of the listed peers from the named network.
    RemoveNodes { network_id: String, node_ids: Vec<String> },
}

/// Mathematical model of a [`VpnControl`].
#[verifier::ext_equal]
pub ghost enum ControlV {
    AddNodes { network_id: Seq<char>, nodes: Seq<NodeV> },
    RemoveNodes { network_id: Seq<char>, node_ids: Seq<Seq<char>> },
}

impl View for VpnControl {
    type V = ControlV;

    open spec fn view(&self) -> ControlV {
        match self {
            VpnControl::AddNodes { network_id, nodes } => ControlV::AddNodes {
                network_id: network_id@,
                nodes: nodes.deep_view(),
            },
            VpnControl::RemoveNodes { network_id, node_ids } => ControlV::RemoveNodes {
                network_id: network_id@,
                node_ids: node_ids.deep_view(),
            },
        }
    }
}

/// The relay controller.
pub struct Vpn {
    node_id: String,
    networks: Networks,
    rx_buf: RxBuffer,
    phase: RelayPhase,
}

/// Mathematical model of a [`Vpn`].
#[verifier::ext_equal]
pub ghost struct VpnV {
    pub node_id: Seq<char>,
    pub networks: Seq<NetV>,
    pub rx_buf: Seq<u8>,
    pub phase: RelayPhase,
}

impl View for Vpn {
    type V = VpnV;

    closed spec fn view(&self) -> VpnV {
        VpnV {
            node_id: self.node_id@,
            networks: self.networks@,
            rx_buf: self.rx_buf@,
            phase: self.phase,
        }
    }
}

/// What building the topology from a deployment does: networks register in
/// order, each followed by its memberships, and the first rejection decides
/// the result.
pub open spec fn spec_build(nets: Seq<NetV>, dn: Seq<DeploymentNetworkV>) -> Result<
    Seq<NetV>,
    VpnError,
>
    decreases dn.len(),
{
    if dn.len() == 0 {
        Ok(nets)
    } else {
        match spec_add_network(nets, dn[0].id, dn[0].addr, dn[0].prefix) {
            Ok(m) => match spec_add_nodes(m, dn[0].id, dn[0].nodes) {
                Ok(m2) => spec_build(m2, dn.drop_first()),
                Err(e) => Err(e),
            },
            Err(e) => Err(e),
        }
    }
}

/// The routes the relay registers and unbinds: one per network, addressed
/// by the local peer and the network identifier.
pub open spec fn bind_routes(node_id: Seq<char>, nets: Seq<NetV>) -> Seq<Seq<char>> {
    Seq::new(nets.len(), |i: int| route_chars(node_id, nets[i].id))
}

impl Vpn {
    /// The controller is internally consistent.
    pub open spec fn wf(&self) -> bool {
        networks_wf(self@.networks) && !frame_complete(self@.rx_buf)
    }

    /// The lifecycle phase the controller is in.
    pub fn phase(&self) -> (r: RelayPhase)
        ensures
            r == self@.phase,
    {
        self.phase
    }

    /// Builds a not-yet-started relay for a deployment: every network of the
    /// descriptor is registered and populated, in order, and the first
    /// invalid network or membership rejects the whole deployment.
    #[verifier::loop_isolation(false)]
    pub fn try_new(node_id: String, deployment: &Deployment) -> (r: Result<Vpn, VpnError>)
        ensures
            match r {
                Ok(v) => {
                    &&& spec_build(Seq::empty(), deployment@.networks) == Ok::<Seq<NetV>, VpnError>(
                        v@.networks,
                    )
                    &&& v@.node_id == node_id@
                    &&& v@.rx_buf == Seq::<u8>::empty()
                    &&& v@.phase == RelayPhase::NotStarted
                    &&& v.wf()
                },
                Err(e) => spec_build(Seq::empty(), deployment@.networks) == Err::<
                    Seq<NetV>,
                    VpnError,
                >(e),
            },
    {
        let ghost dns: Seq<DeploymentNetworkV> = deployment@.networks;
        let mut networks = Networks::new();
        let mut i: usize = 0;
        proof {
            assert(dns.take(0) =~= Seq::<DeploymentNetworkV>::empty());
        }
        while i < deployment.networks.len()
            invariant
                i <= dns.len(),
                networks.wf(),
                spec_build(Seq::empty(), dns.take(i as int)) == Ok::<Seq<NetV>, VpnError>(
                    networks@,
                ),
            decreases dns.len() - i,
        {
            let ghost before: Seq<NetV> = networks@;
            let dn = &deployment.networks[i];
            let step1 = networks.add_network(dn.id.clone(), dn.addr, dn.prefix);
            match step1 {
                Err(e) => {
                    proof {
                        lemma_build_step(dns, i as int, before);
                    }
                    return Err(e);
                },
                Ok(()) => (),
            }
            proof {
                let dv = dns[i as int];
                assert(spec_add_network(before, dv.id, dv.addr, dv.prefix) == Ok::<
                    Seq<NetV>,
                    VpnError,
                >(networks@));
                assert(networks@ == before.push(
                    NetV {
                        id: dv.id,
                        base: crate::addr::base_of(dv.addr, dv.prefix),
                        prefix: dv.prefix,
                        nodes: Seq::empty(),
                    },
                ));
                assert(networks@[networks@.len() - 1].id == dv.id);
                assert(has_network(networks@, dns[i as int].id));
            }
            let step2 = networks.add_nodes(&dn.id, &dn.nodes);
            match step2 {
                Err(e) => {
                    proof {
                        lemma_build_step(dns, i as int, before);
                    }
                    return Err(e);
                },
                Ok(()) => (),
            }
            proof {
                lemma_build_step(dns, i as int, before);
            }
            i = i + 1;
        }
        proof {
            assert(dns.take(dns.len() as int) =~= dns);
        }
        Ok(Vpn { node_id, networks, rx_buf: RxBuffer::default(), phase: RelayPhase::NotStarted })
    }
}

/// The calls to issue for a sequence of decoded frames, in decode order.
pub open spec fn egress_batch(nets: Seq<NetV>, frames: Seq<Seq<u8>>) -> Seq<CallV>
    decreases frames.len(),
{
    if frames.len() == 0 {
        Seq::empty()
    } else {
        spec_egress_calls(nets, frames[0]) + egress_batch(nets, frames.drop_first())
    }
}

impl Vpn {
    /// The routes of every registered network under the local peer's
    /// addressing scheme, for binding and unbinding.
    #[verifier::loop_isolation(false)]
    fn routes(&self) -> (r: Vec<String>)
        ensures
            r.deep_view() == bind_routes(self@.node_id, self@.networks),
    {
        let ids = self.networks.network_ids();
        let mut r: Vec<String> = Vec::new();
        let mut i: usize = 0;
        assert(ids.deep_view().len() == ids@.len());
        assert(ids@.len() == self@.networks.len());
        assert(r.deep_view() =~~= bind_routes(self@.node_id, self@.networks).take(0));
        while i < ids.len()
            invariant
                i <= ids@.len(),
                ids@.len() == self@.networks.len(),
                ids.deep_view() == net_ids(self@.networks),
                r.deep_view() == bind_routes(self@.node_id, self@.networks).take(i as int),
            decreases ids@.len() - i,
        {
            let ghost prev: Seq<Seq<char>> = r.deep_view();
            let route = crate::topology::gsb_endpoint(self.node_id.as_str(), ids[i].as_str());
            assert(ids.deep_view()[i as int] == net_ids(self@.networks)[i as int]);
            assert(route@ == route_chars(self@.node_id, self@.networks[i as int].id));
            r.push(route);
            proof {
                let full = bind_routes(self@.node_id, self@.networks);
                assert(prev.len() == i);
                assert forall|l: int| 0 <= l < r@.len() implies r.deep_view()[l] == full.take(
                    i + 1,
                )[l] by {
                    if l < i {
                        assert(r.deep_view()[l] == prev[l]);
                        assert(prev[l] == full.take(i as int)[l]);
                    }
                }
                assert(r.deep_view() =~~= full.take(i + 1));
            }
            i = i + 1;
        }
        proof {
            let full = bind_routes(self@.node_id, self@.networks);
            assert(full.take(full.len() as int) =~= full);
        }
        r
    }

    /// Starts the relay: with a local endpoint from the runtime it becomes
    /// active and returns the routes to register (each network's route
    /// serves both its data and its control messages); with none the failure
    /// is fatal and the relay goes straight to stopped.
    pub fn started(&mut self, endpoint: Option<String>) -> (r: Result<Vec<String>, VpnError>)
        requires
            old(self).wf(),
            old(self)@.phase == RelayPhase::NotStarted,
        ensures
            final(self).wf(),
            final(self)@.networks == old(self)@.networks,
            final(self)@.node_id == old(self)@.node_id,
            final(self)@.rx_buf == old(self)@.rx_buf,
            match r {
                Ok(routes) => endpoint is Some && final(self)@.phase == RelayPhase::Active
                    && routes.deep_view() == bind_routes(old(self)@.node_id, old(self)@.networks),
                Err(e) => endpoint is None && e == VpnError::NoLocalEndpoint && final(self)@.phase
                    == RelayPhase::Stopped,
            },
    {
        match endpoint {
            None => {
                self.phase = RelayPhase::Stopped;
                Err(VpnError::NoLocalEndpoint)
            },
            Some(_) => {
                self.phase = RelayPhase::Active;
                Ok(self.routes())
            },
        }
    }

    /// Requests shutdown: the relay stops accepting work and returns the
    /// routes to unbind, best effort (an unbind failure is logged by the
    /// caller, never fatal).
    pub fn stopping(&mut self) -> (r: Vec<String>)
        requires
            old(self).wf(),
            old(self)@.phase == RelayPhase::Active,
        ensures
            final(self).wf(),
            final(self)@ == (VpnV { phase: RelayPhase::Stopping, ..old(self)@ }),
            r.deep_view() == bind_routes(old(self)@.node_id, old(self)@.networks),
    {
        self.phase = RelayPhase::Stopping;
        self.routes()
    }

    /// The local stream is no longer consumed; in-flight forwarding calls
    /// already handed to the caller are not cancelled.
    pub fn stopped(&mut self)
        requires
            old(self).wf(),
            old(self)@.phase == RelayPhase::Stopping,
        ensures
            final(self).wf(),
            final(self)@ == (VpnV { phase: RelayPhase::Stopped, ..old(self)@ }),
    {
        self.phase = RelayPhase::Stopped;
    }

    /// Egress: feeds one chunk read from the local transport and returns
    /// every remote call to issue, one per forwarded frame and destination,
    /// in decode order.  Frames that cannot be forwarded are dropped without
    /// aborting the rest of the chunk.  The caller issues the calls detached
    /// and in order; their completions need not be awaited.
    #[verifier::loop_isolation(false)]
    pub fn handle_egress(&mut self, chunk: Vec<u8>) -> (r: Vec<RemoteCall>)
        requires
            old(self).wf(),
            old(self)@.phase == RelayPhase::Active,
        ensures
            final(self).wf(),
            final(self)@ == (VpnV {
                rx_buf: decode_rest(old(self)@.rx_buf + chunk@),
                ..old(self)@
            }),
            r.deep_view() == egress_batch(
                old(self)@.networks,
                decode_frames(old(self)@.rx_buf + chunk@),
            ),
    {
        let ghost nets: Seq<NetV> = self@.networks;
        let mut frames = self.rx_buf.process(chunk);
        let ghost all: Seq<Seq<u8>> = frames.deep_view();
        let mut r: Vec<RemoteCall> = Vec::new();
        proof {
            assert(all.skip(0) =~= all);
            assert(r.deep_view() =~~= Seq::<CallV>::empty());
        }
        let mut i: usize = 0;
        while i < frames.len()
            invariant
                i <= all.len(),
                frames.deep_view() == all,
                egress_batch(nets, all) == r.deep_view() + egress_batch(nets, all.skip(i as int)),
            decreases all.len() - i,
        {
            let ghost before: Seq<CallV> = r.deep_view();
            let f = crate::frame::clone_frame(&frames[i]);
            assert(f@ == all[i as int]);
            let mut calls = classify_frame(&self.networks, f);
            let ghost cv: Seq<CallV> = calls.deep_view();
            r.append(&mut calls);
            proof {
                assert(r.deep_view() =~~= before + cv);
                let rest = all.skip(i as int);
                assert(rest[0] == all[i as int]);
                assert(rest.drop_first() =~= all.skip(i + 1));
                assert(egress_batch(nets, rest) == spec_egress_calls(nets, all[i as int])
                    + egress_batch(nets, all.skip(i + 1)));
                assert(r.deep_view() + egress_batch(nets, all.skip(i + 1)) =~~= before
                    + egress_batch(nets, rest));
            }
            i = i + 1;
        }
        proof {
            assert(all.skip(all.len() as int) =~= Seq::<Seq<u8>>::empty());
            assert(r.deep_view() =~~= r.deep_view() + egress_batch(nets, all.skip(all.len() as int)));
        }
        r
    }

    /// Ingress: a raw frame delivered by a remote peer becomes the bytes to
    /// write to the local transport, a length prefix followed by the
    /// payload.  A frame too large for the wire format is dropped (logged by
    /// the caller, never surfaced); delivery is at-most-once, never retried.
    pub fn handle_ingress(&self, packet: Vec<u8>) -> (r: Option<Vec<u8>>)
        requires
            self.wf(),
            self@.phase == RelayPhase::Active,
        ensures
            packet@.len() <= MAX_FRAME_SIZE ==> (r matches Some(b) && b@ == encode_frame(
                packet@,
            )),
            packet@.len() > MAX_FRAME_SIZE ==> r is None,
    {
        if packet.len() > MAX_FRAME_SIZE {
            return None;
        }
        let mut framed = packet;
        write_prefix(&mut framed);
        Some(framed)
    }

    /// Control: applies one control message to the topology table and
    /// reports success or the specific rejection to the calling peer.  A
    /// batch of additions is atomic: on rejection nothing is applied.
    pub fn handle_control(&mut self, msg: VpnControl) -> (r: Result<(), VpnError>)
        requires
            old(self).wf(),
            old(self)@.phase == RelayPhase::Active,
        ensures
            final(self).wf(),
            final(self)@.node_id == old(self)@.node_id,
            final(self)@.rx_buf == old(self)@.rx_buf,
            final(self)@.phase == old(self)@.phase,
            match r {
                Ok(()) => spec_control(old(self)@.networks, msg@) == Ok::<Seq<NetV>, VpnError>(
                    final(self)@.networks,
                ),
                Err(e) => spec_control(old(self)@.networks, msg@) == Err::<Seq<NetV>, VpnError>(e)
                    && final(self)@.networks == old(self)@.networks,
            },
    {
        match msg {
            VpnControl::AddNodes { network_id, nodes } => {
                self.networks.add_nodes(&network_id, &nodes)
            },
            VpnControl::RemoveNodes { network_id, node_ids } => {
                self.networks.remove_nodes(&network_id, &node_ids)
            },
        }
    }
}

/// What one control message does to the topology, or why it is rejected:
/// the network is looked up first, then the batch applies per the table's
/// contracts.
pub open spec fn spec_control(nets: Seq<NetV>, c: ControlV) -> Result<Seq<NetV>, VpnError> {
    match c {
        ControlV::AddNodes { network_id, nodes } => {
            if !has_network(nets, network_id) {
                Err(VpnError::UnknownNetwork)
            } else {
                spec_add_nodes(nets, network_id, nodes)
            }
        },
        ControlV::RemoveNodes { network_id, node_ids } => {
            if !has_network(nets, network_id) {
                Err(VpnError::UnknownNetwork)
            } else {
                spec_remove_nodes(nets, network_id, node_ids)
            }
        },
    }
}

/// The network description shape the workload runtime expects: the network
/// address, gateway, subnet mask, and this node's own interface address,
/// each in dotted-decimal form.
pub struct RuntimeNetwork {
    pub addr: String,
    pub gateway: String,
    pub mask: String,
    pub if_addr: String,
}

/// Mathematical model of a [`RuntimeNetwork`].
#[verifier::ext_equal]
pub ghost struct RuntimeNetworkV {
    pub addr: Seq<char>,
    pub gateway: Seq<char>,
    pub mask: Seq<char>,
    pub if_addr: Seq<char>,
}

impl View for RuntimeNetwork {
    type V = RuntimeNetworkV;

    open spec fn view(&self) -> RuntimeNetworkV {
        RuntimeNetworkV {
            addr: self.addr@,
            gateway: self.gateway@,
            mask: self.mask@,
            if_addr: self.if_addr@,
        }
    }
}

impl DeepView for RuntimeNetwork {
    type V = RuntimeNetworkV;

    open spec fn deep_view(&self) -> RuntimeNetworkV {
        self@
    }
}

/// The subnet mask of a network with the given prefix length.
pub open spec fn mask_of(prefix: u8) -> u32
    recommends
        prefix <= 32,
{
    (0x100000000 - crate::addr::net_size_spec(prefix)) as u32
}

/// What translating one deployment network for the runtime yields: the
/// gateway is the first usable host address, reserved and never assignable
/// to a peer, which exists only when the space leaves at least two usable
/// hosts.
#[verifier::opaque]
pub open spec fn spec_runtime_network(n: DeploymentNetworkV) -> Result<RuntimeNetworkV, VpnError> {
    if n.prefix > 30 {
        Err(VpnError::InvalidAddressSpace)
    } else {
        Ok(
            RuntimeNetworkV {
                addr: crate::addr::ipv4_chars(crate::addr::base_of(n.addr, n.prefix)),
                gateway: crate::addr::ipv4_chars(
                    (crate::addr::base_of(n.addr, n.prefix) + 1) as u32,
                ),
                mask: crate::addr::ipv4_chars(mask_of(n.prefix)),
                if_addr: crate::addr::ipv4_chars(n.node_ip),
            },
        )
    }
}

/// What translating the whole deployment yields: networks in order, and the
/// first invalid one rejects the request.
pub open spec fn spec_runtime_request(dns: Seq<DeploymentNetworkV>) -> Result<
    Seq<RuntimeNetworkV>,
    VpnError,
>
    decreases dns.len(),
{
    if dns.len() == 0 {
        Ok(Seq::empty())
    } else {
        match spec_runtime_network(dns[0]) {
            Ok(rn) => match spec_runtime_request(dns.drop_first()) {
                Ok(rest) => Ok(seq![rn] + rest),
                Err(e) => Err(e),
            },
            Err(e) => Err(e),
        }
    }
}

/// Translates one network of the deployment into the runtime's shape.
pub fn runtime_network(net: &DeploymentNetwork) -> (r: Result<RuntimeNetwork, VpnError>)
    ensures
        match r {
            Ok(rn) => spec_runtime_network(net@) == Ok::<RuntimeNetworkV, VpnError>(rn@),
            Err(e) => spec_runtime_network(net@) == Err::<RuntimeNetworkV, VpnError>(e),
        },
{
    proof {
        reveal(spec_runtime_network);
    }
    if net.prefix > 30 {
        return Err(VpnError::InvalidAddressSpace);
    }
    let base = crate::addr::net_base(net.addr, net.prefix);
    proof {
        crate::topology::lemma_base_bound(net.addr, net.prefix);
        crate::topology::lemma_net_size_at_least(net.prefix);
    }
    let size: u64 = crate::addr::net_size(net.prefix);
    let mask: u32 = (0x100000000u64 - size) as u32;
    assert(mask == mask_of(net@.prefix));
    Ok(
        RuntimeNetwork {
            addr: crate::addr::ipv4_string(base),
            gateway: crate::addr::ipv4_string(base + 1),
            mask: crate::addr::ipv4_string(mask),
            if_addr: crate::addr::ipv4_string(net.node_ip),
        },
    )
}

/// The create-network request handed to the workload runtime at startup:
/// every network of the deployment in the runtime's shape.  The static host
/// entries of the deployment are passed through by the caller unchanged.
#[verifier::loop_isolation(false)]
#[verifier::rlimit(50)]
pub fn create_network_request(deployment: &Deployment) -> (r: Result<Vec<RuntimeNetwork>, VpnError>)
    ensures
        match r {
            Ok(v) => spec_runtime_request(deployment@.networks) == Ok::<
                Seq<RuntimeNetworkV>,
                VpnError,
            >(v.deep_view()),
            Err(e) => spec_runtime_request(deployment@.networks) == Err::<
                Seq<RuntimeNetworkV>,
                VpnError,
            >(e),
        },
{
    let ghost dns: Seq<DeploymentNetworkV> = deployment@.networks;
    let mut out: Vec<RuntimeNetwork> = Vec::new();
    let mut i: usize = 0;
    while i < deployment.networks.len()
        invariant
            i <= dns.len(),
            out.deep_view().len() == i,
            forall|j: int|
                0 <= j < i ==> spec_runtime_network(dns[j]) == Ok::<RuntimeNetworkV, VpnError>(
                    #[trigger] out.deep_view()[j],
                ),
        decreases dns.len() - i,
    {
        let ghost prev: Seq<RuntimeNetworkV> = out.deep_view();
        match runtime_network(&deployment.networks[i]) {
            Err(e) => {
                proof {
                    assert forall|j: int|
                        0 <= j < i implies (#[trigger] spec_runtime_network(dns[j])) is Ok by {
                        assert(spec_runtime_network(dns[j]) == Ok::<RuntimeNetworkV, VpnError>(
                            out.deep_view()[j],
                        ));
                    }
                    lemma_runtime_request_err(dns, i as int, e);
                }
                return Err(e);
            },
            Ok(rn) => {
                out.push(rn);
                proof {
                    assert forall|j: int|
                        0 <= j < i + 1 implies spec_runtime_network(dns[j]) == Ok::<
                        RuntimeNetworkV,
                        VpnError,
                    >(#[trigger] out.deep_view()[j]) by {
                        if j < i {
                            assert(out.deep_view()[j] == prev[j]);
                        }
                    }
                }
            },
        }
        i = i + 1;
    }
    proof {
        lemma_runtime_request_ok(dns, out.deep_view());
    }
    Ok(out)
}

/// When every network translates, the whole request is their translations.
proof fn lemma_runtime_request_ok(dns: Seq<DeploymentNetworkV>, out: Seq<RuntimeNetworkV>)
    requires
        out.len() == dns.len(),
        forall|j: int|
            0 <= j < dns.len() ==> spec_runtime_network(dns[j]) == Ok::<RuntimeNetworkV, VpnError>(
                #[trigger] out[j],
            ),
    ensures
        spec_runtime_request(dns) == Ok::<Seq<RuntimeNetworkV>, VpnError>(out),
    decreases dns.len(),
{
    if dns.len() > 0 {
        assert forall|j: int|
            0 <= j < dns.drop_first().len() implies spec_runtime_network(
            #[trigger] dns.drop_first()[j],
        ) == Ok::<RuntimeNetworkV, VpnError>(out.drop_first()[j]) by {
            assert(dns.drop_first()[j] == dns[j + 1]);
            assert(out.drop_first()[j] == out[j + 1]);
        }
        lemma_runtime_request_ok(dns.drop_first(), out.drop_first());
        assert(seq![out[0]] + out.drop_first() =~= out);
    } else {
        assert(out =~= Seq::<RuntimeNetworkV>::empty());
    }
}

/// The first network that fails to translate rejects the whole request.
proof fn lemma_runtime_request_err(dns: Seq<DeploymentNetworkV>, i: int, e: VpnError)
    requires
        0 <= i < dns.len(),
        forall|j: int| 0 <= j < i ==> (#[trigger] spec_runtime_network(dns[j])) is Ok,
        spec_runtime_network(dns[i]) == Err::<RuntimeNetworkV, VpnError>(e),
    ensures
        spec_runtime_request(dns) == Err::<Seq<RuntimeNetworkV>, VpnError>(e),
    decreases i,
{
    if i > 0 {
        assert(spec_runtime_network(dns[0]) is Ok);
        assert forall|j: int|
            0 <= j < i - 1 implies (#[trigger] spec_runtime_network(dns.drop_first()[j])) is Ok by {
            assert(dns.drop_first()[j] == dns[j + 1]);
        }
        assert(dns.drop_first()[i - 1] == dns[i]);
        lemma_runtime_request_err(dns.drop_first(), i - 1, e);
    }
}

/// Entry point for one deployment: a deployment that defines no virtual
/// networks needs no relay; otherwise the relay is built, not yet started.
/// The caller then requests the local transport from the runtime (see
/// [`create_network_request`]) and hands the endpoint to [`Vpn::started`].
pub fn start_vpn(node_id: String, deployment: &Deployment) -> (r: Result<Option<Vpn>, VpnError>)
    ensures
        deployment@.networks.len() == 0 ==> (r matches Ok(o) && o is None),
        deployment@.networks.len() > 0 ==> match r {
            Ok(o) => {
                &&& o matches Some(v)
                &&& spec_build(Seq::empty(), deployment@.networks) == Ok::<Seq<NetV>, VpnError>(
                    v@.networks,
                )
                &&& v@.node_id == node_id@
                &&& v@.rx_buf == Seq::<u8>::empty()
                &&& v@.phase == RelayPhase::NotStarted
                &&& v.wf()
            },
            Err(e) => spec_build(Seq::empty(), deployment@.networks) == Err::<Seq<NetV>, VpnError>(
                e,
            ),
        },
{
    if deployment.networks.len() == 0 {
        return Ok(None);
    }
    match Vpn::try_new(node_id, deployment) {
        Ok(v) => Ok(Some(v)),
        Err(e) => Err(e),
    }
}

/// The step case of building from a deployment: once the first `i` networks
/// have produced registry `m`, the whole build behaves as network `i`
/// applied to `m` followed by the remaining networks.
proof fn lemma_build_step(dns: Seq<DeploymentNetworkV>, i: int, m: Seq<NetV>)
    requires
        0 <= i < dns.len(),
        spec_build(Seq::empty(), dns.take(i)) == Ok::<Seq<NetV>, VpnError>(m),
    ensures
        spec_build(Seq::empty(), dns.take(i + 1)) == (match spec_add_network(
            m,
            dns[i].id,
            dns[i].addr,
            dns[i].prefix,
        ) {
            Ok(m1) => match spec_add_nodes(m1, dns[i].id, dns[i].nodes) {
                Ok(m2) => Ok::<Seq<NetV>, VpnError>(m2),
                Err(e) => Err(e),
            },
            Err(e) => Err(e),
        }),
        spec_build(Seq::empty(), dns.take(i + 1)) is Err ==> spec_build(Seq::empty(), dns)
            == spec_build(Seq::empty(), dns.take(i + 1)),
{
    lemma_build_split(Seq::empty(), dns.take(i + 1), i);
    assert(dns.take(i + 1).take(i) =~= dns.take(i));
    assert(dns.take(i + 1).skip(i) =~= seq![dns[i]]);
    let one = seq![dns[i]];
    assert(one[0] == dns[i]);
    assert(one.drop_first() =~= Seq::<DeploymentNetworkV>::empty());
    match spec_add_network(m, dns[i].id, dns[i].addr, dns[i].prefix) {
        Ok(m1) => {
            match spec_add_nodes(m1, dns[i].id, dns[i].nodes) {
                Ok(m2) => {
                    assert(spec_build(m2, one.drop_first()) == Ok::<Seq<NetV>, VpnError>(m2));
                },
                Err(e) => (),
            }
        },
        Err(e) => (),
    }
    if spec_build(Seq::empty(), dns.take(i + 1)) is Err {
        lemma_build_split(Seq::empty(), dns, i + 1);
    }
}

/// Splitting a deployment build at any point gives the same result as
/// running it in one piece.
proof fn lemma_build_split(nets: Seq<NetV>, dns: Seq<DeploymentNetworkV>, i: int)
    requires
        0 <= i <= dns.len(),
    ensures
        spec_build(nets, dns) == (match spec_build(nets, dns.take(i)) {
            Ok(m) => spec_build(m, dns.skip(i)),
            Err(e) => Err(e),
        }),
    decreases i,
{
    if i == 0 {
        assert(dns.take(0) =~= Seq::<DeploymentNetworkV>::empty());
        assert(dns.skip(0) =~= dns);
    } else {
        let d0 = dns[0];
        assert(dns.take(i)[0] == d0);
        match spec_add_network(nets, d0.id, d0.addr, d0.prefix) {
            Err(e) => (),
            Ok(m1) => {
                match spec_add_nodes(m1, d0.id, d0.nodes) {
                    Err(e) => (),
                    Ok(m2) => {
                        lemma_build_split(m2, dns.drop_first(), i - 1);
                        assert(dns.take(i).drop_first() =~= dns.drop_first().take(i - 1));
                        assert(dns.skip(i) =~= dns.drop_first().skip(i - 1));
                    },
                }
            },
        }
    }
}

} // verus!
