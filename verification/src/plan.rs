//! The supervision plan: the named children of one run, how each one relates
//! to the shared bridge network, and the data derived from the plan before
//! anything is launched (containers to build, port forwardings, namespace
//! file names).

use vstd::prelude::*;
use vstd::string::StringExecFns;

verus! {

/// Network configuration of one supervised child: its address inside the
/// bridge network, an optional hostname, and the ordered list of
/// (external port, internal port) forwardings requested for it.
pub struct NetworkConfig {
    pub ip: String,
    pub hostname: Option<String>,
    pub ports: Vec<(u16, u16)>,
}

/// How one child relates to the shared bridge network.
pub enum ChildKind {
    /// Runs with host networking.
    HostNet,
    /// Runs inside a private network + hostname namespace attached to the
    /// shared bridge.
    Networked(NetworkConfig),
    /// The single process that owns the shared bridge namespace itself.
    Bridge,
}

/// One named child of the plan: its unique name, the container its command
/// runs in, and its network placement.
pub struct ChildSpec {
    pub name: String,
    pub container: String,
    pub kind: ChildKind,
}

/// The full plan of one supervision run: every child, in plan order.
pub struct SupervisionPlan {
    pub children: Vec<ChildSpec>,
}

pub open spec fn is_host_net(c: ChildSpec) -> bool {
    c.kind is HostNet
}

pub open spec fn is_networked(c: ChildSpec) -> bool {
    c.kind is Networked
}

pub open spec fn is_bridge(c: ChildSpec) -> bool {
    c.kind is Bridge
}

/// A well-formed plan names every child uniquely.
pub open spec fn plan_wf(children: Seq<ChildSpec>) -> bool {
    forall|i: int, j: int|
        0 <= i < j < children.len() ==> children[i].name@ != children[j].name@
}

/// The hostname a networked child is configured with: the explicit hostname
/// when one is given, the child's own name otherwise.
pub open spec fn spec_hostname(name: Seq<char>, net: NetworkConfig) -> Seq<char> {
    match net.hostname {
        Some(h) => h@,
        None => name,
    }
}

/// Picks the hostname for a networked child, falling back to its name.
pub fn effective_hostname<'a>(name: &'a String, net: &'a NetworkConfig) -> (h: &'a String)
    ensures
        h@ == spec_hostname(name@, *net),
{
    match &net.hostname {
        Some(h) => h,
        None => name,
    }
}

/// The name of the network namespace file of a child, derived from its IP.
pub open spec fn net_ns_name(ip: Seq<char>) -> Seq<char> {
    "net."@ + ip
}

/// The name of the hostname (UTS) namespace file of a child, derived from
/// its IP.
pub open spec fn uts_ns_name(ip: Seq<char>) -> Seq<char> {
    "uts."@ + ip
}

/// Builds the network namespace file name for the given IP.
pub fn net_ns_file(ip: &String) -> (r: String)
    ensures
        r@ == net_ns_name(ip@),
{
    let p = String::from_str("net.");
    p.concat(ip.as_str())
}

/// Builds the hostname namespace file name for the given IP.
pub fn uts_ns_file(ip: &String) -> (r: String)
    ensures
        r@ == uts_ns_name(ip@),
{
    let p = String::from_str("uts.");
    p.concat(ip.as_str())
}

/// The port-forward rules one child asks for: one
/// (external port, child ip, internal port) triple per declared pair, in
/// declaration order.  Host-net and bridge children ask for none.
pub open spec fn child_forwards(c: ChildSpec) -> Seq<(u16, Seq<char>, u16)> {
    match c.kind {
        ChildKind::Networked(net) => net.ports@.map_values(|p: (u16, u16)| (p.0, net.ip@, p.1)),
        _ => Seq::empty(),
    }
}

/// All port-forward rules of the plan, child by child in plan order.
pub open spec fn forwards_of(cs: Seq<ChildSpec>) -> Seq<(u16, Seq<char>, u16)>
    decreases cs.len(),
{
    if cs.len() == 0 {
        Seq::empty()
    } else {
        forwards_of(cs.drop_last()) + child_forwards(cs.last())
    }
}

/// The external ports of all forward rules of the plan, in rule order.
pub open spec fn ports_of(cs: Seq<ChildSpec>) -> Seq<u16> {
    forwards_of(cs).map_values(|f: (u16, Seq<char>, u16)| f.0)
}

/// The view of one collected forward rule.
pub open spec fn forward_view(t: (u16, String, u16)) -> (u16, Seq<char>, u16) {
    (t.0, t.1@, t.2)
}

/// Collects every port-forward rule the plan asks for: for each networked
/// child in plan order, one (external port, ip, internal port) triple per
/// declared port pair, in declaration order.
pub fn collect_forwards(plan: &SupervisionPlan) -> (r: Vec<(u16, String, u16)>)
    ensures
        r@.map_values(|t: (u16, String, u16)| forward_view(t)) == forwards_of(plan.children@),
{
    let ghost cs = plan.children@;
    let mut r: Vec<(u16, String, u16)> = Vec::new();
    let mut i: usize = 0;
    while i < plan.children.len()
        invariant
            i <= cs.len(),
            cs == plan.children@,
            r@.map_values(|t: (u16, String, u16)| forward_view(t)) == forwards_of(cs.take(i as int)),
        decreases cs.len() - i,
    {
        match &plan.children[i].kind {
            ChildKind::Networked(net) => {
                let ghost base = forwards_of(cs.take(i as int));
                let mut j: usize = 0;
                while j < net.ports.len()
                    invariant
                        j <= net.ports@.len(),
                        cs == plan.children@,
                        i < cs.len(),
                        cs[i as int].kind == ChildKind::Networked(*net),
                        r@.map_values(|t: (u16, String, u16)| forward_view(t)) == base
                            + net.ports@.take(j as int).map_values(
                            |p: (u16, u16)| (p.0, net.ip@, p.1),
                        ),
                    decreases net.ports@.len() - j,
                {
                    let (ext, inp) = net.ports[j];
                    let ghost old_r = r@;
                    r.push((ext, net.ip.clone(), inp));
                    proof {
                        assert(r@.map_values(|t: (u16, String, u16)| forward_view(t)) =~= old_r.map_values(
                            |t: (u16, String, u16)| forward_view(t),
                        ).push((ext, net.ip@, inp)));
                        assert(net.ports@.take(j + 1 as int).map_values(
                            |p: (u16, u16)| (p.0, net.ip@, p.1),
                        ) =~= net.ports@.take(j as int).map_values(
                            |p: (u16, u16)| (p.0, net.ip@, p.1),
                        ).push((ext, net.ip@, inp)));
                    }
                    j = j + 1;
                }
                proof {
                    assert(net.ports@.take(net.ports@.len() as int) =~= net.ports@);
                    assert(child_forwards(cs[i as int]) == net.ports@.map_values(
                        |p: (u16, u16)| (p.0, net.ip@, p.1),
                    ));
                }
            },
            _ => {
                proof {
                    assert(child_forwards(cs[i as int]) =~= Seq::<(u16, Seq<char>, u16)>::empty());
                    assert(forwards_of(cs.take(i as int)) + child_forwards(cs[i as int])
                        =~= forwards_of(cs.take(i as int)));
                }
            },
        }
        proof {
            assert(cs.take(i + 1 as int).drop_last() =~= cs.take(i as int));
            assert(cs.take(i + 1 as int).last() == cs[i as int]);
            assert(forwards_of(cs.take(i + 1 as int)) == forwards_of(cs.take(i as int))
                + child_forwards(cs[i as int]));
        }
        i = i + 1;
    }
    proof {
        assert(cs.take(cs.len() as int) =~= cs);
    }
    r
}

/// Collects the external ports of every forward rule of the plan, in rule
/// order.
pub fn collect_ports(plan: &SupervisionPlan) -> (r: Vec<u16>)
    ensures
        r@ == ports_of(plan.children@),
{
    let fwd = collect_forwards(plan);
    let ghost fseq = forwards_of(plan.children@);
    let mut r: Vec<u16> = Vec::new();
    let mut i: usize = 0;
    while i < fwd.len()
        invariant
            i <= fwd@.len(),
            fwd@.map_values(|t: (u16, String, u16)| forward_view(t)) == fseq,
            r@ == fseq.map_values(|f: (u16, Seq<char>, u16)| f.0).take(i as int),
        decreases fwd@.len() - i,
    {
        proof {
            assert(fseq[i as int] == forward_view(fwd@[i as int]));
            assert(fseq.map_values(|f: (u16, Seq<char>, u16)| f.0).take(i + 1 as int)
                =~= fseq.map_values(|f: (u16, Seq<char>, u16)| f.0).take(i as int).push(
                fseq[i as int].0,
            ));
        }
        r.push(fwd[i].0);
        i = i + 1;
    }
    proof {
        assert(fseq.map_values(|f: (u16, Seq<char>, u16)| f.0).take(fseq.len() as int)
            =~= ports_of(plan.children@));
    }
    r
}

} // verus!
