//! The supervision loop as a state machine: the supervisor tracks the
//! children that were started, consumes interrupt, terminate and child-death
//! events, decides whom to signal, reaps every tracked child exactly once,
//! and computes the final result code.  The surrounding program blocks on the
//! event source, performs the signalling, and feeds each event in.

use vstd::prelude::*;

verus! {

/// The result code of a run that failed during launch, distinct from any
/// child's own exit status.
pub const LAUNCH_FAILURE_CODE: i32 = 127;

/// The interrupt signal number; interrupt and terminate events both yield
/// the result code 128 + this number.
pub const INTERRUPT_SIGNAL: i32 = 2;

/// The signal number forwarded to children when the run stops.
pub const TERMINATE_SIGNAL: i32 = 15;

/// How one reaped child ended: a normal exit with a code, or an uncaught
/// fatal signal.
#[derive(Clone, Copy, PartialEq, Eq, Structural, Debug)]
pub enum ExitStatus {
    Exited(i32),
    Signaled(i32),
}

/// Signal numbers carried by a status are real signal numbers.
pub open spec fn status_valid(st: ExitStatus) -> bool {
    match st {
        ExitStatus::Exited(_) => true,
        ExitStatus::Signaled(s) => 0 <= s <= 64,
    }
}

/// The result code derived from the triggering child's status: a normal exit
/// reports its own code, a signal termination reports 128 + the signal
/// number.
pub open spec fn status_code(st: ExitStatus) -> int {
    match st {
        ExitStatus::Exited(c) => c as int,
        ExitStatus::Signaled(s) => 128 + s as int,
    }
}

/// Converts one reaped status to the result code it stands for.
pub fn convert_status(st: ExitStatus) -> (c: i32)
    requires
        status_valid(st),
    ensures
        c as int == status_code(st),
{
    match st {
        ExitStatus::Exited(c) => c,
        ExitStatus::Signaled(s) => 128 + s,
    }
}

/// One event of the supervision loop: an interrupt request, a terminate
/// request, or a child-death notification carrying everything one reap sweep
/// collected, in reap order.
pub enum Event {
    Interrupt,
    Terminate,
    ChildDeath(Vec<(i32, ExitStatus)>),
}

/// Every status delivered by an event is a real status.
pub open spec fn event_valid(e: Event) -> bool {
    match e {
        Event::ChildDeath(r) => forall|k: int| 0 <= k < r@.len() ==> status_valid(r@[k].1),
        _ => true,
    }
}

/// One tracked running child: its process identity and its display name.
pub struct RunningChild {
    pub pid: i32,
    pub name: String,
}

impl Clone for RunningChild {
    fn clone(&self) -> (r: Self)
        ensures
            r == *self,
    {
        RunningChild { pid: self.pid, name: self.name.clone() }
    }
}

/// The phases of one run, in the order they are passed through.
#[derive(Clone, Copy, PartialEq, Eq, Structural, Debug)]
pub enum Phase {
    /// Children are being spawned; no event is consumed yet.
    Launching,
    /// All children run; the first exit, interrupt or terminate ends the run.
    Running,
    /// The run is over; remaining children are being drained.
    Draining,
    /// Every tracked child has been reaped; the result code is final.
    Drained,
}

/// The abstract state of the supervisor.
pub struct SupervisorModel {
    pub phase: Phase,
    /// The children being tracked, in spawn order.
    pub children: Seq<RunningChild>,
    /// The result code computed so far.
    pub code: int,
    /// Whether some spawn failed during launch.
    pub spawn_failed: bool,
}

/// The process identities of the tracked children, in spawn order.
pub open spec fn pids(t: Seq<RunningChild>) -> Seq<i32> {
    t.map_values(|c: RunningChild| c.pid)
}

/// Whether some tracked child has this process identity.
pub open spec fn has_pid(t: Seq<RunningChild>, pid: i32) -> bool {
    exists|k: int| 0 <= k < t.len() && t[k].pid == pid
}

/// No two tracked children share a process identity.
pub open spec fn unique_pids(t: Seq<RunningChild>) -> bool {
    forall|a: int, b: int| 0 <= a < b < t.len() ==> t[a].pid != t[b].pid
}

/// The tracked children without the one of the given identity.
pub open spec fn remove_pid(t: Seq<RunningChild>, pid: i32) -> Seq<RunningChild>
    decreases t.len(),
{
    if t.len() == 0 {
        t
    } else if t[0].pid == pid {
        remove_pid(t.drop_first(), pid)
    } else {
        seq![t[0]] + remove_pid(t.drop_first(), pid)
    }
}

/// The tracked child of the given identity.
pub open spec fn entry_of(t: Seq<RunningChild>, pid: i32) -> RunningChild {
    t[choose|k: int| 0 <= k < t.len() && t[k].pid == pid]
}

/// One reap sweep over the tracked children: removes every reaped identity,
/// in reap order, and remembers the first reaped child that was tracked,
/// with its status.
pub open spec fn sweep(
    t: Seq<RunningChild>,
    reaped: Seq<(i32, ExitStatus)>,
    hit: Option<(RunningChild, ExitStatus)>,
) -> (Seq<RunningChild>, Option<(RunningChild, ExitStatus)>)
    decreases reaped.len(),
{
    if reaped.len() == 0 {
        (t, hit)
    } else {
        let pid = reaped[0].0;
        let st = reaped[0].1;
        let hit2 = if hit is None && has_pid(t, pid) {
            Some((entry_of(t, pid), st))
        } else {
            hit
        };
        sweep(remove_pid(t, pid), reaped.drop_first(), hit2)
    }
}

/// A well-formed supervisor: identities are unique, and a running supervisor
/// tracks at least one child.
pub open spec fn wf_model(m: SupervisorModel) -> bool {
    &&& unique_pids(m.children)
    &&& (m.phase is Running ==> m.children.len() > 0)
}

/// Everything one step of the loop decides: the state after the event, the
/// children to send the terminate signal to, the triggering child to report,
/// and the final result code once the run is drained.
pub struct StepResult {
    pub state: SupervisorModel,
    pub signal: Seq<i32>,
    pub report: Option<(RunningChild, ExitStatus)>,
    pub finished: Option<int>,
}

/// The transition of the supervision loop on one event.
///
/// Running: an interrupt was already delivered to the whole process group, so
/// nobody is signalled and the run drains with code 128 + the interrupt
/// number; a terminate is forwarded to every tracked child, with the same
/// code; a child death ends the run — the sweep is reaped, the first tracked
/// child of the sweep decides the code, and every remaining child is
/// signalled.  Draining: interrupts are ignored, terminates are re-forwarded,
/// child deaths only reap; the run is finished once nothing is tracked.
pub open spec fn step_model(m: SupervisorModel, e: Event) -> StepResult {
    match m.phase {
        Phase::Running => match e {
            Event::Interrupt => StepResult {
                state: SupervisorModel {
                    phase: Phase::Draining,
                    children: m.children,
                    code: 128 + INTERRUPT_SIGNAL as int,
                    spawn_failed: m.spawn_failed,
                },
                signal: Seq::empty(),
                report: None,
                finished: None,
            },
            Event::Terminate => StepResult {
                state: SupervisorModel {
                    phase: Phase::Draining,
                    children: m.children,
                    code: 128 + INTERRUPT_SIGNAL as int,
                    spawn_failed: m.spawn_failed,
                },
                signal: pids(m.children),
                report: None,
                finished: None,
            },
            Event::ChildDeath(r) => {
                let (t2, hit) = sweep(m.children, r@, None);
                match hit {
                    Some((child, st)) => {
                        let c = status_code(st);
                        if t2.len() == 0 {
                            StepResult {
                                state: SupervisorModel {
                                    phase: Phase::Drained,
                                    children: t2,
                                    code: c,
                                    spawn_failed: m.spawn_failed,
                                },
                                signal: Seq::empty(),
                                report: Some((child, st)),
                                finished: Some(c),
                            }
                        } else {
                            StepResult {
                                state: SupervisorModel {
                                    phase: Phase::Draining,
                                    children: t2,
                                    code: c,
                                    spawn_failed: m.spawn_failed,
                                },
                                signal: pids(t2),
                                report: Some((child, st)),
                                finished: None,
                            }
                        }
                    },
                    None => StepResult { state: m, signal: Seq::empty(), report: None, finished: None },
                }
            },
        },
        Phase::Draining => match e {
            Event::Interrupt => StepResult {
                state: m,
                signal: Seq::empty(),
                report: None,
                finished: None,
            },
            Event::Terminate => StepResult {
                state: m,
                signal: pids(m.children),
                report: None,
                finished: None,
            },
            Event::ChildDeath(r) => {
                let (t2, _) = sweep(m.children, r@, None);
                if t2.len() == 0 {
                    StepResult {
                        state: SupervisorModel {
                            phase: Phase::Drained,
                            children: t2,
                            code: m.code,
                            spawn_failed: m.spawn_failed,
                        },
                        signal: Seq::empty(),
                        report: None,
                        finished: Some(m.code),
                    }
                } else {
                    StepResult {
                        state: SupervisorModel {
                            phase: Phase::Draining,
                            children: t2,
                            code: m.code,
                            spawn_failed: m.spawn_failed,
                        },
                        signal: Seq::empty(),
                        report: None,
                        finished: None,
                    }
                }
            },
        },
        _ => StepResult { state: m, signal: Seq::empty(), report: None, finished: None },
    }
}

proof fn lemma_remove_pid_absent(t: Seq<RunningChild>, pid: i32)
    requires
        !has_pid(t, pid),
    ensures
        remove_pid(t, pid) == t,
    decreases t.len(),
{
    if t.len() > 0 {
        assert(t[0].pid != pid);
        assert(!has_pid(t.drop_first(), pid)) by {
            if has_pid(t.drop_first(), pid) {
                let k = choose|k: int|
                    0 <= k < t.drop_first().len() && t.drop_first()[k].pid == pid;
                assert(t[k + 1].pid == pid);
                assert(has_pid(t, pid));
            }
        }
        lemma_remove_pid_absent(t.drop_first(), pid);
        assert(seq![t[0]] + t.drop_first() =~= t);
    }
}

proof fn lemma_remove_pid_props(t: Seq<RunningChild>, pid: i32)
    ensures
        !has_pid(remove_pid(t, pid), pid),
        forall|q: i32| has_pid(remove_pid(t, pid), q) ==> has_pid(t, q),
        forall|q: i32| q != pid && has_pid(t, q) ==> has_pid(remove_pid(t, pid), q),
        unique_pids(t) ==> unique_pids(remove_pid(t, pid)),
        remove_pid(t, pid).len() <= t.len(),
    decreases t.len(),
{
    if t.len() > 0 {
        let rest = remove_pid(t.drop_first(), pid);
        lemma_remove_pid_props(t.drop_first(), pid);
        assert forall|k: int| 0 <= k < t.drop_first().len() implies #[trigger] t.drop_first()[k]
            == t[k + 1] by {}
        if t[0].pid == pid {
            assert forall|q: i32| q != pid && has_pid(t, q) implies has_pid(
                remove_pid(t, pid),
                q,
            ) by {
                let k = choose|k: int| 0 <= k < t.len() && t[k].pid == q;
                assert(k >= 1);
                assert(t.drop_first()[k - 1].pid == q);
                assert(has_pid(t.drop_first(), q));
            }
            assert forall|q: i32| has_pid(remove_pid(t, pid), q) implies has_pid(t, q) by {
                assert(has_pid(t.drop_first(), q));
                let k = choose|k: int|
                    0 <= k < t.drop_first().len() && t.drop_first()[k].pid == q;
                assert(t[k + 1].pid == q);
            }
        } else {
            let r = seq![t[0]] + rest;
            assert(remove_pid(t, pid) == r);
            assert forall|q: i32| has_pid(r, q) implies q == t[0].pid || has_pid(
                t.drop_first(),
                q,
            ) by {
                let k = choose|k: int| 0 <= k < r.len() && r[k].pid == q;
                if k > 0 {
                    assert(rest[k - 1].pid == q);
                    assert(has_pid(rest, q));
                }
            }
            assert(!has_pid(r, pid));
            assert forall|q: i32| has_pid(r, q) implies has_pid(t, q) by {
                if q == t[0].pid {
                    assert(t[0].pid == q);
                    assert(has_pid(t, q));
                } else {
                    assert(has_pid(t.drop_first(), q));
                    let k = choose|k: int|
                        0 <= k < t.drop_first().len() && t.drop_first()[k].pid == q;
                    assert(t[k + 1].pid == q);
                }
            }
            assert forall|q: i32| q != pid && has_pid(t, q) implies has_pid(r, q) by {
                let k = choose|k: int| 0 <= k < t.len() && t[k].pid == q;
                if k == 0 {
                    assert(r[0].pid == q);
                } else {
                    assert(t.drop_first()[k - 1].pid == q);
                    assert(has_pid(t.drop_first(), q));
                    assert(has_pid(rest, q));
                    let k2 = choose|k2: int| 0 <= k2 < rest.len() && rest[k2].pid == q;
                    assert(r[k2 + 1].pid == q);
                }
            }
            if unique_pids(t) {
                assert(unique_pids(t.drop_first()));
                assert forall|a: int, b: int| 0 <= a < b < r.len() implies r[a].pid
                    != r[b].pid by {
                    if a == 0 {
                        assert(r[b] == rest[b - 1]);
                        assert(has_pid(rest, rest[b - 1].pid));
                        assert(has_pid(t.drop_first(), rest[b - 1].pid));
                        let k = choose|k: int|
                            0 <= k < t.drop_first().len() && t.drop_first()[k].pid == rest[b
                                - 1].pid;
                        assert(t[k + 1].pid == rest[b - 1].pid);
                        assert(t[0].pid != t[k + 1].pid);
                    } else {
                        assert(r[a] == rest[a - 1]);
                        assert(r[b] == rest[b - 1]);
                    }
                }
            }
        }
    }
}

proof fn lemma_remove_pid_at(t: Seq<RunningChild>, pid: i32, idx: int)
    requires
        unique_pids(t),
        0 <= idx < t.len(),
        t[idx].pid == pid,
    ensures
        remove_pid(t, pid) == t.remove(idx),
    decreases t.len(),
{
    if idx == 0 {
        assert(!has_pid(t.drop_first(), pid)) by {
            if has_pid(t.drop_first(), pid) {
                let k = choose|k: int|
                    0 <= k < t.drop_first().len() && t.drop_first()[k].pid == pid;
                assert(t[k + 1].pid == pid);
                assert(t[0].pid != t[k + 1].pid);
            }
        }
        lemma_remove_pid_absent(t.drop_first(), pid);
        assert(t.remove(0) =~= t.drop_first());
    } else {
        assert(t[0].pid != pid);
        assert(unique_pids(t.drop_first())) by {
            assert forall|a: int, b: int| 0 <= a < b < t.drop_first().len() implies
                #[trigger] t.drop_first()[a].pid != #[trigger] t.drop_first()[b].pid by {
                assert(t.drop_first()[a] == t[a + 1]);
                assert(t.drop_first()[b] == t[b + 1]);
            }
        }
        assert(t.drop_first()[idx - 1] == t[idx]);
        lemma_remove_pid_at(t.drop_first(), pid, idx - 1);
        assert(seq![t[0]] + t.drop_first().remove(idx - 1) =~= t.remove(idx));
    }
}

proof fn lemma_sweep_hit_persists(
    t: Seq<RunningChild>,
    reaped: Seq<(i32, ExitStatus)>,
    x: (RunningChild, ExitStatus),
)
    ensures
        sweep(t, reaped, Some(x)).1 == Some(x),
    decreases reaped.len(),
{
    if reaped.len() > 0 {
        lemma_sweep_hit_persists(remove_pid(t, reaped[0].0), reaped.drop_first(), x);
    }
}

proof fn lemma_sweep_props(
    t: Seq<RunningChild>,
    reaped: Seq<(i32, ExitStatus)>,
    hit: Option<(RunningChild, ExitStatus)>,
)
    ensures
        forall|q: i32| has_pid(sweep(t, reaped, hit).0, q) ==> has_pid(t, q),
        unique_pids(t) ==> unique_pids(sweep(t, reaped, hit).0),
        forall|k: int| 0 <= k < reaped.len() ==> !has_pid(sweep(t, reaped, hit).0, reaped[k].0),
        sweep(t, reaped, hit).0.len() <= t.len(),
    decreases reaped.len(),
{
    if reaped.len() > 0 {
        let pid = reaped[0].0;
        let st = reaped[0].1;
        let hit2 = if hit is None && has_pid(t, pid) {
            Some((entry_of(t, pid), st))
        } else {
            hit
        };
        lemma_remove_pid_props(t, pid);
        lemma_sweep_props(remove_pid(t, pid), reaped.drop_first(), hit2);
        assert forall|k: int| 0 <= k < reaped.len() implies !has_pid(
            sweep(t, reaped, hit).0,
            reaped[k].0,
        ) by {
            if k == 0 {
                assert(!has_pid(remove_pid(t, pid), pid));
            } else {
                assert(reaped.drop_first()[k - 1] == reaped[k]);
            }
        }
    }
}

proof fn lemma_sweep_no_hit(t: Seq<RunningChild>, reaped: Seq<(i32, ExitStatus)>)
    requires
        sweep(t, reaped, None).1 is None,
    ensures
        sweep(t, reaped, None).0 == t,
    decreases reaped.len(),
{
    if reaped.len() > 0 {
        let pid = reaped[0].0;
        if has_pid(t, pid) {
            lemma_sweep_hit_persists(
                remove_pid(t, pid),
                reaped.drop_first(),
                (entry_of(t, pid), reaped[0].1),
            );
        }
        lemma_remove_pid_absent(t, pid);
        lemma_sweep_no_hit(t, reaped.drop_first());
    }
}

/// What the caller must do after one call into the supervisor: send the
/// terminate signal to these children (best effort — a failure to signal an
/// already-dead process is ignored), report the triggering child if one is
/// named, and stop the loop with the given result code once one is given.
pub struct Action {
    pub signal: Vec<i32>,
    pub report: Option<(RunningChild, ExitStatus)>,
    pub finished: Option<i32>,
}

/// The view of an action's result code.
pub open spec fn finished_view(f: Option<i32>) -> Option<int> {
    match f {
        Some(c) => Some(c as int),
        None => None,
    }
}

/// The supervisor of one run: owns the tracked children and drives the
/// phases from launch to drained.
pub struct Supervisor {
    phase: Phase,
    children: Vec<RunningChild>,
    code: i32,
    spawn_failed: bool,
}

impl View for Supervisor {
    type V = SupervisorModel;

    closed spec fn view(&self) -> SupervisorModel {
        SupervisorModel {
            phase: self.phase,
            children: self.children@,
            code: self.code as int,
            spawn_failed: self.spawn_failed,
        }
    }
}

impl Supervisor {
    /// A fresh supervisor about to launch children: nothing tracked, no
    /// failure, result code zero.
    pub fn new() -> (s: Self)
        ensures
            s@ == (SupervisorModel {
                phase: Phase::Launching,
                children: Seq::empty(),
                code: 0,
                spawn_failed: false,
            }),
            wf_model(s@),
    {
        let s = Supervisor {
            phase: Phase::Launching,
            children: Vec::new(),
            code: 0,
            spawn_failed: false,
        };
        proof {
            assert(s@.children =~= Seq::<RunningChild>::empty());
        }
        s
    }

    /// The phase the run is in.
    pub fn phase(&self) -> (p: Phase)
        ensures
            p == self@.phase,
    {
        self.phase
    }

    /// The result code computed so far; final once the run is drained.
    pub fn result_code(&self) -> (c: i32)
        ensures
            c as int == self@.code,
    {
        self.code
    }

    /// How many children are still tracked.
    pub fn tracked_count(&self) -> (n: usize)
        ensures
            n == self@.children.len(),
    {
        self.children.len()
    }

    /// Whether a child with this process identity is tracked.
    pub fn contains_pid(&self, pid: i32) -> (b: bool)
        ensures
            b == has_pid(self@.children, pid),
    {
        let mut j: usize = 0;
        let mut found = false;
        while j < self.children.len()
            invariant
                j <= self.children@.len(),
                found == exists|k: int| 0 <= k < j && self.children@[k].pid == pid,
            decreases self.children@.len() - j,
        {
            if self.children[j].pid == pid {
                found = true;
            }
            j = j + 1;
        }
        found
    }

    /// The identities of every tracked child, in spawn order.
    pub fn tracked_pids(&self) -> (r: Vec<i32>)
        ensures
            r@ == pids(self@.children),
    {
        let mut r: Vec<i32> = Vec::new();
        let mut j: usize = 0;
        while j < self.children.len()
            invariant
                j <= self.children@.len(),
                r@ == pids(self.children@).take(j as int),
            decreases self.children@.len() - j,
        {
            proof {
                assert(pids(self.children@).take(j + 1 as int) =~= pids(self.children@).take(
                    j as int,
                ).push(self.children@[j as int].pid));
            }
            r.push(self.children[j].pid);
            j = j + 1;
        }
        proof {
            assert(pids(self.children@).take(self.children@.len() as int) =~= pids(
                self.children@,
            ));
        }
        r
    }

    /// Records one successfully spawned child during launch.  The caller
    /// hands in a process identity that is not tracked yet.
    pub fn note_spawned(&mut self, pid: i32, name: String)
        requires
            old(self)@.phase is Launching,
            !has_pid(old(self)@.children, pid),
            wf_model(old(self)@),
        ensures
            final(self)@ == (SupervisorModel {
                children: old(self)@.children.push(RunningChild { pid, name }),
                ..old(self)@
            }),
            wf_model(final(self)@),
    {
        let ghost t0 = self.children@;
        self.children.push(RunningChild { pid, name });
        proof {
            assert forall|a: int, b: int| 0 <= a < b < self.children@.len() implies
                self.children@[a].pid != self.children@[b].pid by {
                if b < t0.len() {
                } else {
                    assert(self.children@[a] == t0[a]);
                    assert(!has_pid(t0, pid));
                    assert(t0[a].pid != pid);
                }
            }
        }
    }

    /// Records that one child's spawn failed during launch.  The failure is
    /// remembered; the remaining children of the phase are still attempted.
    pub fn note_spawn_failed(&mut self)
        requires
            old(self)@.phase is Launching,
        ensures
            final(self)@ == (SupervisorModel { spawn_failed: true, ..old(self)@ }),
    {
        self.spawn_failed = true;
    }

    /// Ends the launch phase.  If every spawn succeeded the run enters
    /// Running and waits for events.  If any spawn failed, the result code is
    /// the launch-failure code, every child that did start is signalled, and
    /// the run drains — or is already drained when nothing started.  A plan
    /// where nothing was spawned and nothing failed is a caller error.
    pub fn finish_launch(&mut self) -> (act: Action)
        requires
            old(self)@.phase is Launching,
            wf_model(old(self)@),
            old(self)@.spawn_failed || old(self)@.children.len() > 0,
        ensures
            final(self)@.children == old(self)@.children,
            final(self)@.spawn_failed == old(self)@.spawn_failed,
            wf_model(final(self)@),
            act.report is None,
            !old(self)@.spawn_failed ==> final(self)@ == (SupervisorModel {
                phase: Phase::Running,
                ..old(self)@
            }) && act.signal@ == Seq::<i32>::empty() && act.finished is None,
            old(self)@.spawn_failed ==> final(self)@.code == LAUNCH_FAILURE_CODE as int
                && act.signal@ == pids(old(self)@.children),
            old(self)@.spawn_failed && old(self)@.children.len() > 0 ==> final(self)@.phase
                is Draining && act.finished is None,
            old(self)@.spawn_failed && old(self)@.children.len() == 0 ==> final(self)@.phase
                is Drained && finished_view(act.finished) == Some(LAUNCH_FAILURE_CODE as int),
    {
        if self.spawn_failed {
            self.code = LAUNCH_FAILURE_CODE;
            let signal = self.tracked_pids();
            if self.children.len() == 0 {
                self.phase = Phase::Drained;
                Action { signal, report: None, finished: Some(LAUNCH_FAILURE_CODE) }
            } else {
                self.phase = Phase::Draining;
                Action { signal, report: None, finished: None }
            }
        } else {
            self.phase = Phase::Running;
            Action { signal: Vec::new(), report: None, finished: None }
        }
    }

    /// Consumes one event of the running or draining loop and decides what to
    /// do, as `step_model` states.
    pub fn step(&mut self, e: &Event) -> (act: Action)
        requires
            old(self)@.phase is Running || old(self)@.phase is Draining,
            wf_model(old(self)@),
            event_valid(*e),
        ensures
            final(self)@ == step_model(old(self)@, *e).state,
            act.signal@ == step_model(old(self)@, *e).signal,
            act.report == step_model(old(self)@, *e).report,
            finished_view(act.finished) == step_model(old(self)@, *e).finished,
            wf_model(final(self)@),
    {
        let ghost m0 = self@;
        match e {
            Event::Interrupt => {
                match self.phase {
                    Phase::Running => {
                        self.code = 128 + INTERRUPT_SIGNAL;
                        self.phase = Phase::Draining;
                    },
                    _ => {},
                }
                Action { signal: Vec::new(), report: None, finished: None }
            },
            Event::Terminate => {
                let signal = self.tracked_pids();
                match self.phase {
                    Phase::Running => {
                        self.code = 128 + INTERRUPT_SIGNAL;
                        self.phase = Phase::Draining;
                    },
                    _ => {},
                }
                Action { signal, report: None, finished: None }
            },
            Event::ChildDeath(r) => {
                let ghost t0 = self.children@;
                let mut hit: Option<(RunningChild, ExitStatus)> = None;
                let mut i: usize = 0;
                proof {
                    assert(r@.skip(0) =~= r@);
                }
                while i < r.len()
                    invariant
                        i <= r@.len(),
                        unique_pids(self.children@),
                        forall|k: int| 0 <= k < r@.len() ==> status_valid(r@[k].1),
                        match hit {
                            Some(h) => status_valid(h.1),
                            None => true,
                        },
                        sweep(t0, r@, None) == sweep(self.children@, r@.skip(i as int), hit),
                        self.phase == m0.phase,
                        self.code as int == m0.code,
                        self.spawn_failed == m0.spawn_failed,
                        self.children@.len() <= t0.len(),
                    decreases r@.len() - i,
                {
                    let ghost t_before = self.children@;
                    let ghost hit_before = hit;
                    let (pid, st) = r[i];
                    let mut found: Option<usize> = None;
                    let mut j: usize = 0;
                    while j < self.children.len()
                        invariant
                            j <= self.children@.len(),
                            unique_pids(self.children@),
                            match found {
                                Some(idx) => idx < j && idx < self.children@.len()
                                    && self.children@[idx as int].pid == pid,
                                None => forall|k: int|
                                    0 <= k < j ==> self.children@[k].pid != pid,
                            },
                        decreases self.children@.len() - j,
                    {
                        if self.children[j].pid == pid && found.is_none() {
                            found = Some(j);
                        }
                        j = j + 1;
                    }
                    match found {
                        Some(idx) => {
                            proof {
                                assert(has_pid(t_before, pid));
                                lemma_remove_pid_at(t_before, pid, idx as int);
                            }
                            let child = self.children.remove(idx);
                            proof {
                                let k = choose|k: int|
                                    0 <= k < t_before.len() && t_before[k].pid == pid;
                                assert(t_before[k].pid == t_before[idx as int].pid);
                                assert(k == idx as int);
                                assert(child == entry_of(t_before, pid));
                            }
                            match &hit {
                                None => {
                                    hit = Some((child, st));
                                },
                                Some(_) => {},
                            }
                        },
                        None => {
                            proof {
                                assert(!has_pid(t_before, pid));
                                lemma_remove_pid_absent(t_before, pid);
                            }
                        },
                    }
                    proof {
                        lemma_remove_pid_props(t_before, pid);
                        assert(r@.skip(i as int).drop_first() =~= r@.skip(i + 1 as int));
                        assert(r@.skip(i as int)[0] == r@[i as int]);
                        assert(sweep(t_before, r@.skip(i as int), hit_before) == sweep(
                            self.children@,
                            r@.skip(i + 1 as int),
                            hit,
                        ));
                    }
                    i = i + 1;
                }
                proof {
                    assert(r@.skip(r@.len() as int) =~= Seq::<(i32, ExitStatus)>::empty());
                    assert(sweep(t0, r@, None) == (self.children@, hit));
                }
                match self.phase {
                    Phase::Running => {
                        match hit {
                            Some((child, st)) => {
                                let code = convert_status(st);
                                self.code = code;
                                if self.children.len() == 0 {
                                    self.phase = Phase::Drained;
                                    Action {
                                        signal: Vec::new(),
                                        report: Some((child, st)),
                                        finished: Some(code),
                                    }
                                } else {
                                    self.phase = Phase::Draining;
                                    let signal = self.tracked_pids();
                                    Action {
                                        signal,
                                        report: Some((child, st)),
                                        finished: None,
                                    }
                                }
                            },
                            None => {
                                proof {
                                    lemma_sweep_no_hit(t0, r@);
                                }
                                Action { signal: Vec::new(), report: None, finished: None }
                            },
                        }
                    },
                    _ => {
                        if self.children.len() == 0 {
                            self.phase = Phase::Drained;
                            Action {
                                signal: Vec::new(),
                                report: None,
                                finished: Some(self.code),
                            }
                        } else {
                            Action { signal: Vec::new(), report: None, finished: None }
                        }
                    },
                }
            },
        }
    }
}

proof fn lemma_sweep_hits_when_tracked(
    t: Seq<RunningChild>,
    reaped: Seq<(i32, ExitStatus)>,
    k: int,
)
    requires
        0 <= k < reaped.len(),
        has_pid(t, reaped[k].0),
    ensures
        sweep(t, reaped, None).1 is Some,
    decreases reaped.len(),
{
    let pid = reaped[0].0;
    if has_pid(t, pid) {
        lemma_sweep_hit_persists(
            remove_pid(t, pid),
            reaped.drop_first(),
            (entry_of(t, pid), reaped[0].1),
        );
    } else {
        assert(k >= 1);
        assert(reaped[k].0 != pid);
        lemma_remove_pid_props(t, pid);
        assert(reaped.drop_first()[k - 1] == reaped[k]);
        lemma_sweep_hits_when_tracked(remove_pid(t, pid), reaped.drop_first(), k - 1);
    }
}

/// The state after consuming a sequence of events, oldest first.
pub open spec fn run_model(m: SupervisorModel, events: Seq<Event>) -> SupervisorModel
    decreases events.len(),
{
    if events.len() == 0 {
        m
    } else {
        run_model(step_model(m, events[0]).state, events.drop_first())
    }
}

/// Whether the identity is tracked before event `k` of the run and no longer
/// after it.
pub open spec fn removed_at(m: SupervisorModel, events: Seq<Event>, k: int, pid: i32) -> bool {
    has_pid(run_model(m, events.take(k)).children, pid) && !has_pid(
        run_model(m, events.take(k + 1)).children,
        pid,
    )
}

proof fn lemma_step_no_new_pid(m: SupervisorModel, e: Event, pid: i32)
    requires
        !has_pid(m.children, pid),
    ensures
        !has_pid(step_model(m, e).state.children, pid),
{
    match e {
        Event::ChildDeath(r) => {
            lemma_sweep_props(m.children, r@, None);
        },
        _ => {},
    }
}

/// Over any run of events, the tracked set only shrinks: an identity that is
/// not tracked is never tracked again.
pub proof fn lemma_tracked_only_shrinks(m: SupervisorModel, events: Seq<Event>, pid: i32)
    requires
        !has_pid(m.children, pid),
    ensures
        !has_pid(run_model(m, events).children, pid),
    decreases events.len(),
{
    if events.len() > 0 {
        lemma_step_no_new_pid(m, events[0], pid);
        lemma_tracked_only_shrinks(step_model(m, events[0]).state, events.drop_first(), pid);
    }
}

proof fn lemma_run_append(m: SupervisorModel, s1: Seq<Event>, s2: Seq<Event>)
    ensures
        run_model(m, s1 + s2) == run_model(run_model(m, s1), s2),
    decreases s1.len(),
{
    if s1.len() == 0 {
        assert(s1 + s2 =~= s2);
    } else {
        assert((s1 + s2)[0] == s1[0]);
        assert((s1 + s2).drop_first() =~= s1.drop_first() + s2);
        lemma_run_append(step_model(m, s1[0]).state, s1.drop_first(), s2);
    }
}

/// Exactly-once reap: over any run of events, a process identity leaves the
/// tracked set at most once — once removed it never returns, so no identity
/// is reaped twice, whatever the event ordering or the sweep batching.
pub proof fn lemma_reap_exactly_once(
    m: SupervisorModel,
    events: Seq<Event>,
    pid: i32,
    i: int,
    j: int,
)
    requires
        0 <= i <= j,
        j + 1 <= events.len(),
        removed_at(m, events, i, pid),
        removed_at(m, events, j, pid),
    ensures
        i == j,
{
    if i < j {
        let mi1 = run_model(m, events.take(i + 1));
        assert(events.take(j) =~= events.take(i + 1) + events.subrange(i + 1, j));
        lemma_run_append(m, events.take(i + 1), events.subrange(i + 1, j));
        lemma_tracked_only_shrinks(mi1, events.subrange(i + 1, j), pid);
        assert(!has_pid(run_model(m, events.take(j)).children, pid));
    }
}

/// An identity named by a child-death sweep is no longer tracked after the
/// step that consumes the sweep.
pub proof fn lemma_reaped_is_removed(m: SupervisorModel, e: Event, pid: i32, k: int)
    requires
        m.phase is Running || m.phase is Draining,
        e matches Event::ChildDeath(r) && 0 <= k < r@.len() && r@[k].0 == pid,
    ensures
        !has_pid(step_model(m, e).state.children, pid),
{
    match e {
        Event::ChildDeath(r) => {
            lemma_sweep_props(m.children, r@, None);
            if m.phase is Running {
                let (t2, hit) = sweep(m.children, r@, None);
                if hit is None {
                    lemma_sweep_no_hit(m.children, r@);
                }
            }
        },
        _ => {},
    }
}

/// First-exit-wins: the moment a child-death sweep reaps any tracked child of
/// a running supervisor, every child still tracked after the sweep is handed
/// out for the terminate signal in that same step, and the run leaves
/// Running — it is drained at once when nothing remains, else it drains.
pub proof fn lemma_first_exit_signals_rest(m: SupervisorModel, e: Event)
    requires
        wf_model(m),
        m.phase is Running,
        e matches Event::ChildDeath(r) && (exists|k: int|
            0 <= k < r@.len() && has_pid(m.children, r@[k].0)),
    ensures
        step_model(m, e).signal == pids(step_model(m, e).state.children),
        step_model(m, e).state.phase is Draining || step_model(m, e).state.phase is Drained,
        (step_model(m, e).state.phase is Drained <==> step_model(m, e).state.children.len() == 0),
        step_model(m, e).state.phase is Drained ==> step_model(m, e).finished == Some(
            step_model(m, e).state.code,
        ),
{
    match e {
        Event::ChildDeath(r) => {
            let k = choose|k: int| 0 <= k < r@.len() && has_pid(m.children, r@[k].0);
            lemma_sweep_hits_when_tracked(m.children, r@, k);
            let (t2, hit) = sweep(m.children, r@, None);
            if t2.len() == 0 {
                assert(pids(t2) =~= Seq::<i32>::empty());
            }
        },
        _ => {},
    }
}

/// A step reports a final result code only when nothing is tracked any more:
/// the loop never ends with live tracked children.
pub proof fn lemma_finished_means_drained(m: SupervisorModel, e: Event)
    ensures
        step_model(m, e).finished is Some ==> step_model(m, e).state.children.len() == 0
            && step_model(m, e).state.phase is Drained,
{
}

} // verus!
