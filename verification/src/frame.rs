//! Link-layer frame classification and forwarding decisions.
//!
//! Given one decoded Ethernet-style frame, the classifier reads the
//! link-layer type and the destination fields and decides what the relay
//! must do: forward the whole frame unmodified to one resolved endpoint,
//! fan it out to every member of a network whose broadcast address it
//! names, or drop it.  Field reads are bound-checked: a frame too short for
//! its own header fields is dropped, never sliced past its end.  The
//! decision never mutates the topology; it is a pure function of the
//! registry and the frame bytes, written down as `spec_egress_calls`.

use crate::topology::NetV;
use crate::topology::Networks;
use crate::topology::net_broadcast;
use crate::topology::gsb_endpoint;
use crate::topology::route_chars;
use crate::topology::spec_resolve;
use vstd::prelude::*;

verus! {

/// Link-layer type carried by an IPv4 packet.
pub const ETHERTYPE_IP: u16 = 0x0800;

/// Link-layer type carried by an ARP packet.
pub const ETHERTYPE_ARP: u16 = 0x0806;

/// Bytes of the Ethernet header in front of the payload.
pub const ETH_HEADER_LEN: usize = 14;

/// Shortest frame whose ARP target-protocol-address field can be read.
pub const ARP_MIN_FRAME_LEN: usize = 42;

/// Shortest frame whose IPv4 destination-address field can be read.
pub const IP_MIN_FRAME_LEN: usize = 34;

/// Destination address of a limited broadcast, reaching every network.
pub const LIMITED_BROADCAST: u32 = 0xFFFFFFFF;

/// One remote call the forwarder issues: a routing endpoint and the frame
/// bytes it is to carry.
pub struct RemoteCall {
    pub endpoint: String,
    pub payload: Vec<u8>,
}

/// Mathematical model of a [`RemoteCall`].
#[verifier::ext_equal]
pub ghost struct CallV {
    pub endpoint: Seq<char>,
    pub payload: Seq<u8>,
}

impl View for RemoteCall {
    type V = CallV;

    open spec fn view(&self) -> CallV {
        CallV { endpoint: self.endpoint@, payload: self.payload@ }
    }
}

impl DeepView for RemoteCall {
    type V = CallV;

    open spec fn deep_view(&self) -> CallV {
        self@
    }
}

/// The big-endian 16-bit value at offset `off` of `f`.
pub open spec fn be16(f: Seq<u8>, off: int) -> nat
    recommends
        0 <= off,
        off + 2 <= f.len(),
{
    (f[off] as nat) * 0x100 + (f[off + 1] as nat)
}

/// The big-endian 32-bit value at offset `off` of `f`, as an address.
pub open spec fn ipv4_at(f: Seq<u8>, off: int) -> u32
    recommends
        0 <= off,
        off + 4 <= f.len(),
{
    ((f[off] as nat) * 0x1000000 + (f[off + 1] as nat) * 0x10000 + (f[off + 2] as nat) * 0x100 + (
    f[off + 3] as nat)) as u32
}

/// The frame's link-layer type field.
pub open spec fn ether_type(f: Seq<u8>) -> nat
    recommends
        f.len() >= ETH_HEADER_LEN,
{
    be16(f, 12)
}

/// The protocol-type field of an ARP frame.
pub open spec fn arp_ptype(f: Seq<u8>) -> nat
    recommends
        f.len() >= ARP_MIN_FRAME_LEN,
{
    be16(f, 16)
}

/// The target-protocol-address field of an ARP frame.
pub open spec fn arp_tpa(f: Seq<u8>) -> u32
    recommends
        f.len() >= ARP_MIN_FRAME_LEN,
{
    ipv4_at(f, 38)
}

/// The destination address of an IPv4 frame.
pub open spec fn ip_dst(f: Seq<u8>) -> u32
    recommends
        f.len() >= IP_MIN_FRAME_LEN,
{
    ipv4_at(f, 30)
}

/// The one call a resolved unicast destination gets, or none.
pub open spec fn unicast_calls(nets: Seq<NetV>, ip: u32, f: Seq<u8>) -> Seq<CallV> {
    match spec_resolve(nets, ip) {
        Some(ep) => seq![CallV { endpoint: ep, payload: f }],
        None => Seq::empty(),
    }
}

/// One call per member of network `n`, each carrying the whole frame.
pub open spec fn calls_to(n: NetV, f: Seq<u8>) -> Seq<CallV> {
    Seq::new(n.nodes.len(), |j: int| CallV { endpoint: route_chars(n.nodes[j].node_id, n.id), payload: f })
}

/// One call per member of every network, in registration order.
pub open spec fn all_calls(nets: Seq<NetV>, f: Seq<u8>) -> Seq<CallV>
    decreases nets.len(),
{
    if nets.len() == 0 {
        Seq::empty()
    } else {
        calls_to(nets[0], f) + all_calls(nets.drop_first(), f)
    }
}

/// Some registered network has `dst` as its broadcast address.
pub open spec fn has_broadcast_net(nets: Seq<NetV>, dst: u32) -> bool {
    exists|i: int| 0 <= i < nets.len() && net_broadcast(#[trigger] nets[i]) == dst
}

/// The first registered network whose broadcast address is `dst`.
pub open spec fn broadcast_net_index(nets: Seq<NetV>, dst: u32) -> int
    decreases nets.len(),
{
    if nets.len() == 0 {
        0
    } else if net_broadcast(nets[0]) == dst {
        0
    } else {
        1 + broadcast_net_index(nets.drop_first(), dst)
    }
}

/// The disposition of one decoded frame: every remote call the relay must
/// issue for it.  An empty result is a drop: a frame too short for its
/// fields, an unsupported link-layer type, a non-IPv4 ARP, or an unresolved
/// destination.
pub open spec fn spec_egress_calls(nets: Seq<NetV>, f: Seq<u8>) -> Seq<CallV> {
    if f.len() < ETH_HEADER_LEN {
        Seq::empty()
    } else if ether_type(f) == ETHERTYPE_ARP {
        if f.len() < ARP_MIN_FRAME_LEN {
            Seq::empty()
        } else if arp_ptype(f) != ETHERTYPE_IP {
            Seq::empty()
        } else {
            unicast_calls(nets, arp_tpa(f), f)
        }
    } else if ether_type(f) == ETHERTYPE_IP {
        if f.len() < IP_MIN_FRAME_LEN {
            Seq::empty()
        } else if ip_dst(f) == LIMITED_BROADCAST {
            all_calls(nets, f)
        } else if has_broadcast_net(nets, ip_dst(f)) {
            calls_to(nets[broadcast_net_index(nets, ip_dst(f))], f)
        } else {
            unicast_calls(nets, ip_dst(f), f)
        }
    } else {
        Seq::empty()
    }
}

/// Reads the link-layer type field.
pub fn read_ether_type(f: &Vec<u8>) -> (r: u16)
    requires
        f@.len() >= ETH_HEADER_LEN,
    ensures
        r == ether_type(f@),
{
    (f[12] as u16) * 0x100 + (f[13] as u16)
}

/// Reads the big-endian address at offset `off`.
fn read_ipv4_at(f: &Vec<u8>, off: usize) -> (r: u32)
    requires
        off + 4 <= f@.len(),
    ensures
        r == ipv4_at(f@, off as int),
{
    let n = f.len();
    (f[off] as u32) * 0x1000000 + (f[off + 1] as u32) * 0x10000 + (f[off + 2] as u32) * 0x100 + (
    f[off + 3] as u32)
}

/// A copy of the frame bytes for one more outgoing call.
pub fn clone_frame(f: &Vec<u8>) -> (r: Vec<u8>)
    ensures
        r@ == f@,
{
    let mut r: Vec<u8> = Vec::new();
    let mut i: usize = 0;
    while i < f.len()
        invariant
            i <= f@.len(),
            r@ == f@.take(i as int),
        decreases f@.len() - i,
    {
        r.push(f[i]);
        assert(r@ =~= f@.take(i + 1));
        i = i + 1;
    }
    assert(r@ =~= f@);
    r
}

/// Decides the disposition of one decoded frame: the list of remote calls
/// to issue, each carrying the entire original frame unmodified.  An empty
/// list means the frame is dropped (and the drop is logged by the caller);
/// one bad frame never fails the batch.
#[verifier::loop_isolation(false)]
pub fn classify_frame(networks: &Networks, frame: Vec<u8>) -> (r: Vec<RemoteCall>)
    requires
        networks.wf(),
    ensures
        r.deep_view() == spec_egress_calls(networks@, frame@),
{
    let ghost fv: Seq<u8> = frame@;
    let mut r: Vec<RemoteCall> = Vec::new();
    assert(r.deep_view() =~~= Seq::<CallV>::empty());
    if frame.len() < ETH_HEADER_LEN {
        return r;
    }
    let ether = read_ether_type(&frame);
    if ether == ETHERTYPE_ARP {
        if frame.len() < ARP_MIN_FRAME_LEN {
            return r;
        }
        let ptype = (frame[16] as u16) * 0x100 + (frame[17] as u16);
        assert(ptype == arp_ptype(frame@));
        if ptype != ETHERTYPE_IP {
            return r;
        }
        let tpa = read_ipv4_at(&frame, 38);
        match networks.resolve(tpa) {
            Some(ep) => {
                r.push(RemoteCall { endpoint: ep, payload: frame });
                assert(r.deep_view() =~~= spec_egress_calls(networks@, fv));
            },
            None => (),
        }
        r
    } else if ether == ETHERTYPE_IP {
        if frame.len() < IP_MIN_FRAME_LEN {
            return r;
        }
        let dst = read_ipv4_at(&frame, 30);
        if dst == LIMITED_BROADCAST {
            broadcast_all(networks, &frame, &mut r);
            r
        } else {
            match find_broadcast_net(networks, dst) {
                Some(k) => {
                    broadcast_one(networks, k, &frame, &mut r);
                    r
                },
                None => {
                    match networks.resolve(dst) {
                        Some(ep) => {
                            r.push(RemoteCall { endpoint: ep, payload: frame });
                            assert(r.deep_view() =~~= spec_egress_calls(networks@, fv));
                        },
                        None => (),
                    }
                    r
                },
            }
        }
    } else {
        r
    }
}

/// Index of the first network whose broadcast address is `dst`, if any.
#[verifier::loop_isolation(false)]
fn find_broadcast_net(networks: &Networks, dst: u32) -> (r: Option<usize>)
    requires
        networks.wf(),
    ensures
        match r {
            Some(k) => has_broadcast_net(networks@, dst) && k == broadcast_net_index(
                networks@,
                dst,
            ) && k < networks@.len(),
            None => !has_broadcast_net(networks@, dst),
        },
{
    let n = networks.len();
    let mut i: usize = 0;
    assert(networks@.skip(0) =~= networks@);
    while i < n
        invariant
            i <= networks@.len(),
            forall|j: int| 0 <= j < i ==> net_broadcast(#[trigger] networks@[j]) != dst,
            broadcast_net_index(networks@, dst) == i + broadcast_net_index(
                networks@.skip(i as int),
                dst,
            ),
            has_broadcast_net(networks@, dst) == has_broadcast_net(networks@.skip(i as int), dst),
        decreases networks@.len() - i,
    {
        let ghost nv: NetV = networks@[i as int];
        let (base, prefix) = networks.net_params(i);
        proof {
            crate::topology::lemma_net_size_at_least(prefix);
        }
        let size: u64 = crate::addr::net_size(prefix);
        let bcast: u64 = (base as u64) + size - 1;
        proof {
            assert(networks@.skip(i as int)[0] == nv);
        }
        if (dst as u64) == bcast {
            assert(net_broadcast(nv) == dst);
            assert(has_broadcast_net(networks@, dst));
            assert(broadcast_net_index(networks@.skip(i as int), dst) == 0);
            return Some(i);
        }
        proof {
            assert(net_broadcast(nv) != dst);
            assert(networks@.skip(i as int).drop_first() =~= networks@.skip(i + 1));
            if has_broadcast_net(networks@.skip(i + 1), dst) {
                let w = choose|w: int|
                    0 <= w < networks@.skip(i + 1).len() && net_broadcast(
                        #[trigger] networks@.skip(i + 1)[w],
                    ) == dst;
                assert(networks@.skip(i as int)[w + 1] == networks@.skip(i + 1)[w]);
                assert(has_broadcast_net(networks@.skip(i as int), dst));
            }
            if has_broadcast_net(networks@.skip(i as int), dst) {
                let w = choose|w: int|
                    0 <= w < networks@.skip(i as int).len() && net_broadcast(
                        #[trigger] networks@.skip(i as int)[w],
                    ) == dst;
                assert(w != 0);
                assert(networks@.skip(i + 1)[w - 1] == networks@.skip(i as int)[w]);
                assert(has_broadcast_net(networks@.skip(i + 1), dst));
            }
        }
        i = i + 1;
    }
    proof {
        if has_broadcast_net(networks@, dst) {
            let w = choose|w: int|
                0 <= w < networks@.len() && net_broadcast(#[trigger] networks@[w]) == dst;
            assert(net_broadcast(networks@[w]) != dst);
        }
    }
    None
}

/// Appends one call per member of network `k` to `out`.
#[verifier::loop_isolation(false)]
fn broadcast_one(networks: &Networks, k: usize, frame: &Vec<u8>, out: &mut Vec<RemoteCall>)
    requires
        networks.wf(),
        k < networks@.len(),
    ensures
        final(out).deep_view() == old(out).deep_view() + calls_to(networks@[k as int], frame@),
{
    let ghost n: NetV = networks@[k as int];
    let ghost base: Seq<CallV> = out.deep_view();
    let count = networks.node_count(k);
    let mut j: usize = 0;
    while j < count
        invariant
            j <= n.nodes.len(),
            count == n.nodes.len(),
            out.deep_view() == base + calls_to(n, frame@).take(j as int),
        decreases count - j,
    {
        let ghost prev: Seq<CallV> = out.deep_view();
        let ep = networks.node_endpoint(k, j);
        let pl = clone_frame(frame);
        out.push(RemoteCall { endpoint: ep, payload: pl });
        proof {
            assert(prev.len() == base.len() + j);
            assert forall|l: int| 0 <= l < out@.len() implies out.deep_view()[l] == (base
                + calls_to(n, frame@).take(j + 1))[l] by {
                if l < prev.len() {
                    assert(out.deep_view()[l] == prev[l]);
                    assert(prev[l] == (base + calls_to(n, frame@).take(j as int))[l]);
                }
            }
            assert(out.deep_view() =~~= base + calls_to(n, frame@).take(j + 1));
        }
        j = j + 1;
    }
    assert(calls_to(n, frame@).take(n.nodes.len() as int) =~= calls_to(n, frame@));
}

/// Appends one call per member of every network to `out`.
#[verifier::loop_isolation(false)]
fn broadcast_all(networks: &Networks, frame: &Vec<u8>, out: &mut Vec<RemoteCall>)
    requires
        networks.wf(),
        old(out)@.len() == 0,
    ensures
        final(out).deep_view() == all_calls(networks@, frame@),
{
    let n = networks.len();
    let mut i: usize = 0;
    assert(out.deep_view() =~~= Seq::<CallV>::empty());
    assert(networks@.skip(0) =~= networks@);
    while i < n
        invariant
            i <= networks@.len(),
            all_calls(networks@, frame@) == out.deep_view() + all_calls(
                networks@.skip(i as int),
                frame@,
            ),
        decreases networks@.len() - i,
    {
        let ghost before: Seq<CallV> = out.deep_view();
        broadcast_one(networks, i, frame, out);
        proof {
            let rest = networks@.skip(i as int);
            assert(rest[0] == networks@[i as int]);
            assert(rest.drop_first() =~= networks@.skip(i + 1));
            assert(all_calls(rest, frame@) == calls_to(networks@[i as int], frame@) + all_calls(
                networks@.skip(i + 1),
                frame@,
            ));
            assert(out.deep_view() + all_calls(networks@.skip(i + 1), frame@) =~~= before
                + all_calls(rest, frame@));
        }
        i = i + 1;
    }
    proof {
        assert(networks@.skip(networks@.len() as int) =~= Seq::<NetV>::empty());
        assert(out.deep_view() =~~= out.deep_view() + all_calls(
            networks@.skip(networks@.len() as int),
            frame@,
        ));
    }
}

/// Broadcast fan-out: a frame addressed to a network's broadcast address is
/// sent once to every member of that network, each call carrying exactly
/// the original frame bytes.
pub proof fn lemma_broadcast_fanout(nets: Seq<NetV>, f: Seq<u8>, k: int)
    requires
        f.len() >= IP_MIN_FRAME_LEN,
        ether_type(f) == ETHERTYPE_IP,
        ip_dst(f) != LIMITED_BROADCAST,
        0 <= k < nets.len(),
        k == broadcast_net_index(nets, ip_dst(f)),
        net_broadcast(nets[k]) == ip_dst(f),
    ensures
        spec_egress_calls(nets, f).len() == nets[k].nodes.len(),
        forall|j: int|
            0 <= j < nets[k].nodes.len() ==> #[trigger] spec_egress_calls(nets, f)[j] == (CallV {
                endpoint: route_chars(nets[k].nodes[j].node_id, nets[k].id),
                payload: f,
            }),
{
    assert(has_broadcast_net(nets, ip_dst(f)));
    assert(spec_egress_calls(nets, f) == calls_to(nets[k], f));
}

} // verus!
