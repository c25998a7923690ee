//! The launch sequence of one run: which containers to build, in which order
//! to spawn the children, and where the namespace-topology steps stand in
//! between.  The sequence is pure data; the surrounding program performs each
//! step in order and reports spawn outcomes back to the supervisor.

use vstd::prelude::*;
use crate::plan::ChildKind;
use crate::plan::ChildSpec;
use crate::plan::SupervisionPlan;
use crate::plan::is_bridge;
use crate::plan::is_host_net;
use crate::plan::is_networked;

verus! {

/// One step of a supervision run, in execution order.  Steps that concern a
/// single child carry the child's index in the plan.
#[derive(Clone, Copy, PartialEq, Eq, Structural, Debug)]
pub enum LaunchStep {
    /// Build the container of this child, unless an earlier step built the
    /// same container already.
    BuildContainer { child: usize },
    /// Spawn a host-networking child.
    SpawnHostNet { child: usize },
    /// Create the run-scoped children directory under the gateway directory
    /// if it does not exist yet.
    EnsureChildrenDir,
    /// Mount a run-private tmpfs over the children directory.
    MountChildrenTmpfs,
    /// Join the long-lived gateway namespaces.
    JoinGateway,
    /// Enter a new, run-private mount namespace.
    UnshareMountNs,
    /// Create the bridge namespace, pick its address and install the
    /// forwarding rules of the plan.
    SetupBridge,
    /// Create the network and hostname namespaces of this networked child.
    SetupChildNamespaces { child: usize },
    /// Re-attach to the bridge namespace so it stays alive until the
    /// namespaced children hold their own attachments.
    ReattachBridge,
    /// Start the port-forward guard.
    StartForwarding,
    /// Spawn a networked child attached to its own namespaces.
    SpawnNamespaced { child: usize },
    /// Spawn the bridge child attached to the bridge namespace.
    SpawnBridge { child: usize },
}

/// Why a plan cannot be run at all.
#[derive(Clone, Copy, PartialEq, Eq, Structural, Debug)]
pub enum ConfigError {
    /// The plan has no children; a run needs at least one.
    EmptyPlan,
    /// The plan has networked children but the one-time gateway network
    /// setup was never performed.
    NetworkNotSetUp,
}

/// Whether any child of the plan needs the bridge network: a networked child
/// or the bridge child itself.
pub open spec fn has_net_or_bridge(cs: Seq<ChildSpec>) -> bool {
    exists|i: int| 0 <= i < cs.len() && (is_networked(cs[i]) || is_bridge(cs[i]))
}

/// Whether child `i` is the first child of the plan that uses its container,
/// and therefore the one whose step builds it.
pub open spec fn needs_build_at(cs: Seq<ChildSpec>, i: int) -> bool {
    forall|j: int| 0 <= j < i ==> cs[j].container@ != cs[i].container@
}

/// The container-build steps: one per distinct container, at its first use,
/// in plan order.
pub open spec fn build_steps(cs: Seq<ChildSpec>) -> Seq<LaunchStep>
    decreases cs.len(),
{
    if cs.len() == 0 {
        Seq::empty()
    } else {
        build_steps(cs.drop_last()) + if needs_build_at(cs, cs.len() - 1) {
            seq![LaunchStep::BuildContainer { child: (cs.len() - 1) as usize }]
        } else {
            Seq::empty()
        }
    }
}

/// The spawn steps of the host-networking children, in plan order.
pub open spec fn host_spawn_steps(cs: Seq<ChildSpec>) -> Seq<LaunchStep>
    decreases cs.len(),
{
    if cs.len() == 0 {
        Seq::empty()
    } else {
        host_spawn_steps(cs.drop_last()) + if is_host_net(cs.last()) {
            seq![LaunchStep::SpawnHostNet { child: (cs.len() - 1) as usize }]
        } else {
            Seq::empty()
        }
    }
}

/// The per-child namespace-creation steps of the networked children, in plan
/// order.
pub open spec fn setup_steps(cs: Seq<ChildSpec>) -> Seq<LaunchStep>
    decreases cs.len(),
{
    if cs.len() == 0 {
        Seq::empty()
    } else {
        setup_steps(cs.drop_last()) + if is_networked(cs.last()) {
            seq![LaunchStep::SetupChildNamespaces { child: (cs.len() - 1) as usize }]
        } else {
            Seq::empty()
        }
    }
}

/// The spawn steps of the networked children, in plan order.
pub open spec fn ns_spawn_steps(cs: Seq<ChildSpec>) -> Seq<LaunchStep>
    decreases cs.len(),
{
    if cs.len() == 0 {
        Seq::empty()
    } else {
        ns_spawn_steps(cs.drop_last()) + if is_networked(cs.last()) {
            seq![LaunchStep::SpawnNamespaced { child: (cs.len() - 1) as usize }]
        } else {
            Seq::empty()
        }
    }
}

/// The spawn steps of the bridge children, in plan order, after every other
/// namespaced child.
pub open spec fn bridge_spawn_steps(cs: Seq<ChildSpec>) -> Seq<LaunchStep>
    decreases cs.len(),
{
    if cs.len() == 0 {
        Seq::empty()
    } else {
        bridge_spawn_steps(cs.drop_last()) + if is_bridge(cs.last()) {
            seq![LaunchStep::SpawnBridge { child: (cs.len() - 1) as usize }]
        } else {
            Seq::empty()
        }
    }
}

/// The run-wide topology steps that precede the per-child namespaces.
pub open spec fn topology_prefix() -> Seq<LaunchStep> {
    seq![
        LaunchStep::EnsureChildrenDir,
        LaunchStep::MountChildrenTmpfs,
        LaunchStep::JoinGateway,
        LaunchStep::UnshareMountNs,
        LaunchStep::SetupBridge,
    ]
}

/// The whole launch sequence of a runnable plan: build every container at its
/// first use, spawn the host-networking children, and — when any child needs
/// the bridge network — build the full topology, start forwarding, then spawn
/// the networked children and the bridge child last.
pub open spec fn launch_steps(cs: Seq<ChildSpec>) -> Seq<LaunchStep> {
    build_steps(cs) + host_spawn_steps(cs) + if has_net_or_bridge(cs) {
        topology_prefix() + setup_steps(cs)
            + seq![LaunchStep::ReattachBridge, LaunchStep::StartForwarding] + ns_spawn_steps(cs)
            + bridge_spawn_steps(cs)
    } else {
        Seq::empty()
    }
}

/// Computes the launch sequence of the plan, or rejects the plan: an empty
/// plan is a caller error, and a plan with networked children cannot run
/// before the one-time gateway network setup has been performed.
#[verifier::rlimit(60)]
pub fn build_launch_sequence(plan: &SupervisionPlan, netns_set_up: bool) -> (r: Result<
    Vec<LaunchStep>,
    ConfigError,
>)
    ensures
        plan.children@.len() == 0 ==> r == Result::<Vec<LaunchStep>, ConfigError>::Err(
            ConfigError::EmptyPlan,
        ),
        plan.children@.len() > 0 && has_net_or_bridge(plan.children@) && !netns_set_up ==> r
            == Result::<Vec<LaunchStep>, ConfigError>::Err(ConfigError::NetworkNotSetUp),
        plan.children@.len() > 0 && (netns_set_up || !has_net_or_bridge(plan.children@)) ==> (
        r matches Ok(v) && v@ == launch_steps(plan.children@)),
{
    let ghost cs = plan.children@;
    let n = plan.children.len();
    if n == 0 {
        return Err(ConfigError::EmptyPlan);
    }
    let mut has_nb = false;
    let mut i: usize = 0;
    while i < n
        invariant
            cs == plan.children@,
            n == cs.len(),
            i <= n,
            has_nb == exists|k: int|
                0 <= k < i && (is_networked(cs[k]) || is_bridge(cs[k])),
        decreases n - i,
    {
        match &plan.children[i].kind {
            ChildKind::HostNet => {},
            _ => {
                has_nb = true;
            },
        }
        i = i + 1;
    }
    proof {
        assert(has_nb == has_net_or_bridge(cs));
    }
    if has_nb && !netns_set_up {
        return Err(ConfigError::NetworkNotSetUp);
    }

    let mut steps: Vec<LaunchStep> = Vec::new();

    // Container builds, one per distinct container at its first use.
    i = 0;
    while i < n
        invariant
            cs == plan.children@,
            n == cs.len(),
            i <= n,
            steps@ == build_steps(cs.take(i as int)),
        decreases n - i,
    {
        let mut dup = false;
        let mut j: usize = 0;
        while j < i
            invariant
                cs == plan.children@,
                n == cs.len(),
                i < n,
                j <= i,
                dup == exists|k: int|
                    0 <= k < j && cs[k].container@ == cs[i as int].container@,
            decreases i - j,
        {
            if plan.children[j].container == plan.children[i].container {
                dup = true;
            }
            j = j + 1;
        }
        proof {
            assert(!dup == needs_build_at(cs, i as int));
        }
        let ghost prev = steps@;
        if !dup {
            steps.push(LaunchStep::BuildContainer { child: i });
        }
        proof {
            assert(cs.take(i + 1 as int).drop_last() =~= cs.take(i as int));
            assert(cs.take(i + 1 as int).last() == cs[i as int]);
            assert forall|j2: int| 0 <= j2 < i implies cs.take(i + 1 as int)[j2] == cs[j2] by {}
            assert(needs_build_at(cs.take(i + 1 as int), i as int) == needs_build_at(
                cs,
                i as int,
            ));
            if !dup {
                assert(steps@ =~= prev + seq![LaunchStep::BuildContainer { child: i }]);
            } else {
                assert(steps@ =~= prev + Seq::<LaunchStep>::empty());
            }
        }
        i = i + 1;
    }
    proof {
        assert(cs.take(n as int) =~= cs);
    }

    // Host-networking children, in plan order.
    let ghost built = steps@;
    i = 0;
    while i < n
        invariant
            cs == plan.children@,
            n == cs.len(),
            i <= n,
            built == build_steps(cs),
            steps@ == built + host_spawn_steps(cs.take(i as int)),
        decreases n - i,
    {
        let ghost prev = steps@;
        match &plan.children[i].kind {
            ChildKind::HostNet => {
                steps.push(LaunchStep::SpawnHostNet { child: i });
            },
            _ => {},
        }
        proof {
            assert(cs.take(i + 1 as int).drop_last() =~= cs.take(i as int));
            assert(cs.take(i + 1 as int).last() == cs[i as int]);
            if is_host_net(cs[i as int]) {
                assert(steps@ =~= prev + seq![LaunchStep::SpawnHostNet { child: i }]);
                assert(steps@ =~= built + (host_spawn_steps(cs.take(i as int)) + seq![
                    LaunchStep::SpawnHostNet { child: i },
                ]));
            } else {
                assert(host_spawn_steps(cs.take(i + 1 as int)) =~= host_spawn_steps(
                    cs.take(i as int),
                ));
            }
        }
        i = i + 1;
    }
    proof {
        assert(cs.take(n as int) =~= cs);
    }

    if !has_nb {
        proof {
            assert(steps@ =~= launch_steps(cs));
        }
        return Ok(steps);
    }

    // Run-wide topology.
    let ghost hosted = steps@;
    steps.push(LaunchStep::EnsureChildrenDir);
    steps.push(LaunchStep::MountChildrenTmpfs);
    steps.push(LaunchStep::JoinGateway);
    steps.push(LaunchStep::UnshareMountNs);
    steps.push(LaunchStep::SetupBridge);
    proof {
        assert(steps@ =~= hosted + topology_prefix());
    }

    // Per-child namespaces of the networked children, in plan order.
    let ghost topo = steps@;
    i = 0;
    while i < n
        invariant
            cs == plan.children@,
            n == cs.len(),
            i <= n,
            topo == build_steps(cs) + host_spawn_steps(cs) + topology_prefix(),
            steps@ == topo + setup_steps(cs.take(i as int)),
        decreases n - i,
    {
        let ghost prev = steps@;
        match &plan.children[i].kind {
            ChildKind::Networked(_) => {
                steps.push(LaunchStep::SetupChildNamespaces { child: i });
            },
            _ => {},
        }
        proof {
            assert(cs.take(i + 1 as int).drop_last() =~= cs.take(i as int));
            assert(cs.take(i + 1 as int).last() == cs[i as int]);
            if is_networked(cs[i as int]) {
                assert(steps@ =~= prev + seq![LaunchStep::SetupChildNamespaces { child: i }]);
                assert(steps@ =~= topo + (setup_steps(cs.take(i as int)) + seq![
                    LaunchStep::SetupChildNamespaces { child: i },
                ]));
            } else {
                assert(setup_steps(cs.take(i + 1 as int)) =~= setup_steps(cs.take(i as int)));
            }
        }
        i = i + 1;
    }
    proof {
        assert(cs.take(n as int) =~= cs);
    }

    // Keep the bridge alive, then start forwarding, then spawn.
    let ghost set_up = steps@;
    steps.push(LaunchStep::ReattachBridge);
    steps.push(LaunchStep::StartForwarding);
    proof {
        assert(steps@ =~= set_up + seq![LaunchStep::ReattachBridge, LaunchStep::StartForwarding]);
    }

    // Networked children, in plan order.
    let ghost ready = steps@;
    i = 0;
    while i < n
        invariant
            cs == plan.children@,
            n == cs.len(),
            i <= n,
            ready == build_steps(cs) + host_spawn_steps(cs) + topology_prefix() + setup_steps(cs)
                + seq![LaunchStep::ReattachBridge, LaunchStep::StartForwarding],
            steps@ == ready + ns_spawn_steps(cs.take(i as int)),
        decreases n - i,
    {
        let ghost prev = steps@;
        match &plan.children[i].kind {
            ChildKind::Networked(_) => {
                steps.push(LaunchStep::SpawnNamespaced { child: i });
            },
            _ => {},
        }
        proof {
            assert(cs.take(i + 1 as int).drop_last() =~= cs.take(i as int));
            assert(cs.take(i + 1 as int).last() == cs[i as int]);
            if is_networked(cs[i as int]) {
                assert(steps@ =~= prev + seq![LaunchStep::SpawnNamespaced { child: i }]);
                assert(steps@ =~= ready + (ns_spawn_steps(cs.take(i as int)) + seq![
                    LaunchStep::SpawnNamespaced { child: i },
                ]));
            } else {
                assert(ns_spawn_steps(cs.take(i + 1 as int)) =~= ns_spawn_steps(
                    cs.take(i as int),
                ));
            }
        }
        i = i + 1;
    }
    proof {
        assert(cs.take(n as int) =~= cs);
    }

    // The bridge children last, in plan order.
    let ghost spawned = steps@;
    i = 0;
    while i < n
        invariant
            cs == plan.children@,
            n == cs.len(),
            i <= n,
            spawned == build_steps(cs) + host_spawn_steps(cs) + topology_prefix() + setup_steps(cs)
                + seq![LaunchStep::ReattachBridge, LaunchStep::StartForwarding] + ns_spawn_steps(
                cs,
            ),
            steps@ == spawned + bridge_spawn_steps(cs.take(i as int)),
        decreases n - i,
    {
        let ghost prev = steps@;
        match &plan.children[i].kind {
            ChildKind::Bridge => {
                steps.push(LaunchStep::SpawnBridge { child: i });
            },
            _ => {},
        }
        proof {
            assert(cs.take(i + 1 as int).drop_last() =~= cs.take(i as int));
            assert(cs.take(i + 1 as int).last() == cs[i as int]);
            if is_bridge(cs[i as int]) {
                assert(steps@ =~= prev + seq![LaunchStep::SpawnBridge { child: i }]);
                assert(steps@ =~= spawned + (bridge_spawn_steps(cs.take(i as int)) + seq![
                    LaunchStep::SpawnBridge { child: i },
                ]));
            } else {
                assert(bridge_spawn_steps(cs.take(i + 1 as int)) =~= bridge_spawn_steps(
                    cs.take(i as int),
                ));
            }
        }
        i = i + 1;
    }
    proof {
        assert(cs.take(n as int) =~= cs);
        assert(steps@ =~= launch_steps(cs));
    }
    Ok(steps)
}

/// A step of the namespace-topology construction, including the per-child
/// namespaces and the final re-attachment to the bridge.
pub open spec fn is_topology_step(s: LaunchStep) -> bool {
    ||| s is EnsureChildrenDir
    ||| s is MountChildrenTmpfs
    ||| s is JoinGateway
    ||| s is UnshareMountNs
    ||| s is SetupBridge
    ||| s matches LaunchStep::SetupChildNamespaces { .. }
    ||| s is ReattachBridge
}

/// A spawn of a child that attaches to the bridge network: a networked child
/// or the bridge child.
pub open spec fn is_namespaced_spawn_step(s: LaunchStep) -> bool {
    ||| s matches LaunchStep::SpawnNamespaced { .. }
    ||| s matches LaunchStep::SpawnBridge { .. }
}

proof fn lemma_build_steps_kinds(cs: Seq<ChildSpec>)
    ensures
        forall|k: int|
            0 <= k < build_steps(cs).len() ==> #[trigger] build_steps(cs)[k] matches LaunchStep::BuildContainer { .. },
    decreases cs.len(),
{
    if cs.len() > 0 {
        lemma_build_steps_kinds(cs.drop_last());
        let a = build_steps(cs.drop_last());
        assert forall|k: int|
            0 <= k < build_steps(cs).len() implies #[trigger] build_steps(
            cs,
        )[k] matches LaunchStep::BuildContainer { .. } by {
            if k < a.len() {
                assert(build_steps(cs)[k] == a[k]);
            }
        }
    }
}

proof fn lemma_host_spawn_steps_kinds(cs: Seq<ChildSpec>)
    ensures
        forall|k: int|
            0 <= k < host_spawn_steps(cs).len() ==> #[trigger] host_spawn_steps(cs)[k] matches LaunchStep::SpawnHostNet { .. },
    decreases cs.len(),
{
    if cs.len() > 0 {
        lemma_host_spawn_steps_kinds(cs.drop_last());
        let a = host_spawn_steps(cs.drop_last());
        assert forall|k: int|
            0 <= k < host_spawn_steps(cs).len() implies #[trigger] host_spawn_steps(
            cs,
        )[k] matches LaunchStep::SpawnHostNet { .. } by {
            if k < a.len() {
                assert(host_spawn_steps(cs)[k] == a[k]);
            }
        }
    }
}

proof fn lemma_setup_steps_kinds(cs: Seq<ChildSpec>)
    ensures
        forall|k: int|
            0 <= k < setup_steps(cs).len() ==> #[trigger] setup_steps(cs)[k] matches LaunchStep::SetupChildNamespaces { .. },
    decreases cs.len(),
{
    if cs.len() > 0 {
        lemma_setup_steps_kinds(cs.drop_last());
        let a = setup_steps(cs.drop_last());
        assert forall|k: int|
            0 <= k < setup_steps(cs).len() implies #[trigger] setup_steps(
            cs,
        )[k] matches LaunchStep::SetupChildNamespaces { .. } by {
            if k < a.len() {
                assert(setup_steps(cs)[k] == a[k]);
            }
        }
    }
}

proof fn lemma_ns_spawn_steps_kinds(cs: Seq<ChildSpec>)
    ensures
        forall|k: int|
            0 <= k < ns_spawn_steps(cs).len() ==> #[trigger] ns_spawn_steps(cs)[k] matches LaunchStep::SpawnNamespaced { .. },
    decreases cs.len(),
{
    if cs.len() > 0 {
        lemma_ns_spawn_steps_kinds(cs.drop_last());
        let a = ns_spawn_steps(cs.drop_last());
        assert forall|k: int|
            0 <= k < ns_spawn_steps(cs).len() implies #[trigger] ns_spawn_steps(
            cs,
        )[k] matches LaunchStep::SpawnNamespaced { .. } by {
            if k < a.len() {
                assert(ns_spawn_steps(cs)[k] == a[k]);
            }
        }
    }
}

proof fn lemma_bridge_spawn_steps_kinds(cs: Seq<ChildSpec>)
    ensures
        forall|k: int|
            0 <= k < bridge_spawn_steps(cs).len() ==> #[trigger] bridge_spawn_steps(cs)[k] matches LaunchStep::SpawnBridge { .. },
    decreases cs.len(),
{
    if cs.len() > 0 {
        lemma_bridge_spawn_steps_kinds(cs.drop_last());
        let a = bridge_spawn_steps(cs.drop_last());
        assert forall|k: int|
            0 <= k < bridge_spawn_steps(cs).len() implies #[trigger] bridge_spawn_steps(
            cs,
        )[k] matches LaunchStep::SpawnBridge { .. } by {
            if k < a.len() {
                assert(bridge_spawn_steps(cs)[k] == a[k]);
            }
        }
    }
}

proof fn lemma_host_spawns_complete(cs: Seq<ChildSpec>)
    ensures
        forall|i: int|
            0 <= i < cs.len() && is_host_net(#[trigger] cs[i]) ==> host_spawn_steps(cs).contains(
                LaunchStep::SpawnHostNet { child: i as usize },
            ),
    decreases cs.len(),
{
    if cs.len() > 0 {
        lemma_host_spawns_complete(cs.drop_last());
        let a = host_spawn_steps(cs.drop_last());
        assert forall|i: int|
            0 <= i < cs.len() && is_host_net(#[trigger] cs[i]) implies host_spawn_steps(
            cs,
        ).contains(LaunchStep::SpawnHostNet { child: i as usize }) by {
            let step = LaunchStep::SpawnHostNet { child: i as usize };
            if i < cs.len() - 1 {
                assert(cs.drop_last()[i] == cs[i]);
                assert(a.contains(step));
                let k = choose|k: int| 0 <= k < a.len() && a[k] == step;
                assert(host_spawn_steps(cs)[k] == step);
            } else {
                assert(host_spawn_steps(cs)[a.len() as int] == step);
            }
        }
    }
}

/// Every host-networking child of the plan has its own spawn step in the
/// launch sequence.  The sequence is fixed before anything runs, so a child
/// is attempted even when an earlier child's spawn fails: a failure only
/// marks the run, it removes no later step.
pub proof fn lemma_every_host_child_attempted(cs: Seq<ChildSpec>)
    ensures
        forall|i: int|
            0 <= i < cs.len() && is_host_net(#[trigger] cs[i]) ==> launch_steps(cs).contains(
                LaunchStep::SpawnHostNet { child: i as usize },
            ),
{
    lemma_host_spawns_complete(cs);
    assert forall|i: int|
        0 <= i < cs.len() && is_host_net(#[trigger] cs[i]) implies launch_steps(cs).contains(
        LaunchStep::SpawnHostNet { child: i as usize },
    ) by {
        let step = LaunchStep::SpawnHostNet { child: i as usize };
        let b = build_steps(cs);
        let h = host_spawn_steps(cs);
        assert(h.contains(step));
        let k = choose|k: int| 0 <= k < h.len() && h[k] == step;
        assert((b + h)[b.len() + k] == h[k]);
        assert(launch_steps(cs)[b.len() + k] == step);
    }
}

/// Every networked child of the plan has its namespace-setup step and its
/// spawn step in the launch sequence.
pub proof fn lemma_every_networked_child_covered(cs: Seq<ChildSpec>)
    ensures
        forall|i: int|
            0 <= i < cs.len() && is_networked(#[trigger] cs[i]) ==> setup_steps(cs).contains(
                LaunchStep::SetupChildNamespaces { child: i as usize },
            ) && ns_spawn_steps(cs).contains(LaunchStep::SpawnNamespaced { child: i as usize }),
    decreases cs.len(),
{
    if cs.len() > 0 {
        lemma_every_networked_child_covered(cs.drop_last());
        let a = setup_steps(cs.drop_last());
        let c = ns_spawn_steps(cs.drop_last());
        assert forall|i: int|
            0 <= i < cs.len() && is_networked(#[trigger] cs[i]) implies setup_steps(cs).contains(
            LaunchStep::SetupChildNamespaces { child: i as usize },
        ) && ns_spawn_steps(cs).contains(LaunchStep::SpawnNamespaced { child: i as usize }) by {
            let st1 = LaunchStep::SetupChildNamespaces { child: i as usize };
            let st2 = LaunchStep::SpawnNamespaced { child: i as usize };
            if i < cs.len() - 1 {
                assert(cs.drop_last()[i] == cs[i]);
                assert(a.contains(st1));
                let k1 = choose|k: int| 0 <= k < a.len() && a[k] == st1;
                assert(setup_steps(cs)[k1] == st1);
                assert(c.contains(st2));
                let k2 = choose|k: int| 0 <= k < c.len() && c[k] == st2;
                assert(ns_spawn_steps(cs)[k2] == st2);
            } else {
                assert(setup_steps(cs)[a.len() as int] == st1);
                assert(ns_spawn_steps(cs)[c.len() as int] == st2);
            }
        }
    }
}

/// Topology construction completes fully before any namespaced child is
/// spawned, and the bridge namespace is re-attached once after every
/// per-child namespace has been created.
pub proof fn lemma_topology_before_namespaced_spawns(cs: Seq<ChildSpec>)
    requires
        has_net_or_bridge(cs),
    ensures
        forall|j1: int, j2: int|
            0 <= j1 < launch_steps(cs).len() && 0 <= j2 < launch_steps(cs).len()
                && is_topology_step(#[trigger] launch_steps(cs)[j1]) && is_namespaced_spawn_step(
                #[trigger] launch_steps(cs)[j2],
            ) ==> j1 < j2,
        exists|k: int|
            0 <= k < launch_steps(cs).len() && launch_steps(cs)[k] is ReattachBridge && (forall|
                j: int,
            |
                (0 <= j < launch_steps(cs).len()
                    && ((#[trigger] launch_steps(cs)[j]) matches LaunchStep::SetupChildNamespaces { .. }))
                    ==> j < k),
{
    let b = build_steps(cs);
    let h = host_spawn_steps(cs);
    let t = topology_prefix();
    let su = setup_steps(cs);
    let mid = seq![LaunchStep::ReattachBridge, LaunchStep::StartForwarding];
    let nss = ns_spawn_steps(cs);
    let bs = bridge_spawn_steps(cs);
    let pre = b + h;
    let full = launch_steps(cs);
    assert(full == pre + (t + su + mid + nss + bs));
    lemma_build_steps_kinds(cs);
    lemma_host_spawn_steps_kinds(cs);
    lemma_setup_steps_kinds(cs);
    lemma_ns_spawn_steps_kinds(cs);
    lemma_bridge_spawn_steps_kinds(cs);
    let reattach_at = pre.len() + t.len() + su.len();
    let spawn_from = reattach_at + 2;
    assert(full.len() == pre.len() + t.len() + su.len() + 2 + nss.len() + bs.len());
    assert(full[reattach_at as int] == mid[0]);
    assert(full[reattach_at as int] is ReattachBridge);

    assert forall|j: int|
        0 <= j < full.len() && is_topology_step(#[trigger] full[j]) implies j <= reattach_at by {
        if j < b.len() {
            assert(full[j] == b[j]);
        } else if j < pre.len() {
            assert(full[j] == h[j - b.len()]);
        } else if j <= reattach_at {
        } else if j == reattach_at + 1 {
            assert(full[j] == mid[1]);
        } else if j < spawn_from + nss.len() {
            assert(full[j] == nss[j - spawn_from]);
        } else {
            assert(full[j] == bs[j - spawn_from - nss.len()]);
        }
    }

    assert forall|j: int|
        0 <= j < full.len() && is_namespaced_spawn_step(#[trigger] full[j]) implies j
        >= spawn_from by {
        if j < b.len() {
            assert(full[j] == b[j]);
        } else if j < pre.len() {
            assert(full[j] == h[j - b.len()]);
        } else if j < pre.len() + t.len() {
            assert(full[j] == t[j - pre.len()]);
        } else if j < reattach_at {
            assert(full[j] == su[j - pre.len() - t.len()]);
        } else if j == reattach_at {
            assert(full[j] == mid[0]);
        } else if j == reattach_at + 1 {
            assert(full[j] == mid[1]);
        }
    }

    assert forall|j: int|
        0 <= j < full.len() && (#[trigger] full[j]) matches LaunchStep::SetupChildNamespaces { .. } implies j
        < reattach_at by {
        if j < b.len() {
            assert(full[j] == b[j]);
        } else if j < pre.len() {
            assert(full[j] == h[j - b.len()]);
        } else if j < pre.len() + t.len() {
            assert(full[j] == t[j - pre.len()]);
        } else if j < reattach_at {
        } else if j == reattach_at {
            assert(full[j] == mid[0]);
        } else if j == reattach_at + 1 {
            assert(full[j] == mid[1]);
        } else if j < spawn_from + nss.len() {
            assert(full[j] == nss[j - spawn_from]);
        } else {
            assert(full[j] == bs[j - spawn_from - nss.len()]);
        }
    }
    assert(0 <= reattach_at < full.len() && full[reattach_at as int] is ReattachBridge && (forall|
        j: int,
    |
        (0 <= j < full.len() && ((#[trigger] full[j]) matches LaunchStep::SetupChildNamespaces { .. }))
            ==> j < reattach_at));
}

/// The two launch phases and the bridge hand-off: every host-networking child
/// is spawned before any topology step, and the bridge child is spawned after
/// every other namespaced child, so the shared namespace outlives the whole
/// group.
pub proof fn lemma_launch_order(cs: Seq<ChildSpec>)
    requires
        has_net_or_bridge(cs),
    ensures
        forall|j1: int, j2: int|
            (0 <= j1 < launch_steps(cs).len() && 0 <= j2 < launch_steps(cs).len()
                && ((#[trigger] launch_steps(cs)[j1]) matches LaunchStep::SpawnHostNet { .. })
                && is_topology_step(#[trigger] launch_steps(cs)[j2])) ==> j1 < j2,
        forall|j1: int, j2: int|
            (0 <= j1 < launch_steps(cs).len() && 0 <= j2 < launch_steps(cs).len()
                && ((#[trigger] launch_steps(cs)[j1]) matches LaunchStep::SpawnNamespaced { .. })
                && ((#[trigger] launch_steps(cs)[j2]) matches LaunchStep::SpawnBridge { .. }))
                ==> j1 < j2,
{
    let b = build_steps(cs);
    let h = host_spawn_steps(cs);
    let t = topology_prefix();
    let su = setup_steps(cs);
    let mid = seq![LaunchStep::ReattachBridge, LaunchStep::StartForwarding];
    let nss = ns_spawn_steps(cs);
    let bs = bridge_spawn_steps(cs);
    let pre = b + h;
    let full = launch_steps(cs);
    assert(full == pre + (t + su + mid + nss + bs));
    lemma_build_steps_kinds(cs);
    lemma_host_spawn_steps_kinds(cs);
    lemma_setup_steps_kinds(cs);
    lemma_ns_spawn_steps_kinds(cs);
    lemma_bridge_spawn_steps_kinds(cs);
    let reattach_at = pre.len() + t.len() + su.len();
    let spawn_from = reattach_at + 2;
    assert(full.len() == pre.len() + t.len() + su.len() + 2 + nss.len() + bs.len());

    assert forall|j: int|
        0 <= j < full.len() && ((#[trigger] full[j]) matches LaunchStep::SpawnHostNet { .. }) implies j
        < pre.len() by {
        if j < b.len() {
            assert(full[j] == b[j]);
        } else if j < pre.len() {
        } else if j < pre.len() + t.len() {
            assert(full[j] == t[j - pre.len()]);
        } else if j < reattach_at {
            assert(full[j] == su[j - pre.len() - t.len()]);
        } else if j == reattach_at {
            assert(full[j] == mid[0]);
        } else if j == reattach_at + 1 {
            assert(full[j] == mid[1]);
        } else if j < spawn_from + nss.len() {
            assert(full[j] == nss[j - spawn_from]);
        } else {
            assert(full[j] == bs[j - spawn_from - nss.len()]);
        }
    }

    assert forall|j: int|
        0 <= j < full.len() && is_topology_step(#[trigger] full[j]) implies j >= pre.len() by {
        if j < b.len() {
            assert(full[j] == b[j]);
        } else if j < pre.len() {
            assert(full[j] == h[j - b.len()]);
        }
    }

    assert forall|j: int|
        0 <= j < full.len() && ((#[trigger] full[j]) matches LaunchStep::SpawnNamespaced { .. }) implies j
        < spawn_from + nss.len() by {
        if j >= spawn_from + nss.len() {
            assert(full[j] == bs[j - spawn_from - nss.len()]);
        }
    }

    assert forall|j: int|
        0 <= j < full.len() && ((#[trigger] full[j]) matches LaunchStep::SpawnBridge { .. }) implies j
        >= spawn_from + nss.len() by {
        if j < b.len() {
            assert(full[j] == b[j]);
        } else if j < pre.len() {
            assert(full[j] == h[j - b.len()]);
        } else if j < pre.len() + t.len() {
            assert(full[j] == t[j - pre.len()]);
        } else if j < reattach_at {
            assert(full[j] == su[j - pre.len() - t.len()]);
        } else if j == reattach_at {
            assert(full[j] == mid[0]);
        } else if j == reattach_at + 1 {
            assert(full[j] == mid[1]);
        } else if j < spawn_from + nss.len() {
            assert(full[j] == nss[j - spawn_from]);
        }
    }
}

} // verus!
