//! The port-forward guard: owns the host-side forwarding rules of one run,
//! hands them out for installation at most once, and guarantees that removal
//! is requested exactly once — however often release is asked for, and whether
//! or not forwarding was ever started.

use vstd::prelude::*;

verus! {

/// Owns the set of host-to-bridge port-forward rules of one run.
///
/// The guard itself performs no side effects: `start_forwarding` and
/// `release` return the ports whose rules the caller must install or remove,
/// and the guard's state guarantees that the same rules are never handed out
/// for removal twice.
pub struct PortForwardGuard {
    ip: String,
    ports: Vec<u16>,
    started: bool,
    released: bool,
}

/// The abstract state of a guard: the bridge address, the external ports,
/// and whether forwarding was started and released.
pub struct GuardModel {
    pub ip: Seq<char>,
    pub ports: Seq<u16>,
    pub started: bool,
    pub released: bool,
}

impl View for PortForwardGuard {
    type V = GuardModel;

    closed spec fn view(&self) -> GuardModel {
        GuardModel {
            ip: self.ip@,
            ports: self.ports@,
            started: self.started,
            released: self.released,
        }
    }
}

/// The guard state after one release call.
pub open spec fn release_state(g: GuardModel) -> GuardModel {
    GuardModel { released: true, ..g }
}

/// The rules one release call asks the caller to remove: all of them the
/// first time release is called on a started guard, none otherwise.
pub open spec fn release_rules(g: GuardModel) -> Seq<u16> {
    if g.started && !g.released {
        g.ports
    } else {
        Seq::empty()
    }
}

impl PortForwardGuard {
    /// Constructs an inactive guard for the given bridge address and
    /// external ports.
    pub fn new(ip: String, ports: Vec<u16>) -> (g: Self)
        ensures
            g@ == (GuardModel { ip: ip@, ports: ports@, started: false, released: false }),
    {
        PortForwardGuard { ip, ports, started: false, released: false }
    }

    /// The bridge address the rules forward into.
    pub fn ip(&self) -> (r: &String)
        ensures
            r@ == self@.ip,
    {
        &self.ip
    }

    /// The external ports the guard owns.
    pub fn ports(&self) -> (r: &Vec<u16>)
        ensures
            r@ == self@.ports,
    {
        &self.ports
    }

    /// Marks forwarding as started and returns the ports whose rules the
    /// caller must now install.  May be called at most once, and not after
    /// release.
    pub fn start_forwarding(&mut self) -> (rules: Vec<u16>)
        requires
            !old(self)@.started,
            !old(self)@.released,
        ensures
            final(self)@ == (GuardModel { started: true, ..old(self)@ }),
            rules@ == old(self)@.ports,
    {
        self.started = true;
        let mut rules: Vec<u16> = Vec::new();
        let mut i: usize = 0;
        while i < self.ports.len()
            invariant
                i <= self.ports.len(),
                rules@ == self.ports@.take(i as int),
            decreases self.ports.len() - i,
        {
            rules.push(self.ports[i]);
            proof {
                assert(self.ports@.take(i + 1 as int) =~= self.ports@.take(i as int).push(
                    self.ports@[i as int],
                ));
            }
            i = i + 1;
        }
        proof {
            assert(self.ports@.take(self.ports@.len() as int) =~= self.ports@);
        }
        rules
    }

    /// Releases the guard: returns the ports whose rules the caller must
    /// remove.  The first release of a started guard returns every port;
    /// any other call — a repeated release, or a release of a guard whose
    /// forwarding was never started — returns nothing.
    pub fn release(&mut self) -> (rules: Vec<u16>)
        ensures
            final(self)@ == release_state(old(self)@),
            rules@ == release_rules(old(self)@),
    {
        let fire = self.started && !self.released;
        self.released = true;
        if fire {
            let mut rules: Vec<u16> = Vec::new();
            let mut i: usize = 0;
            while i < self.ports.len()
                invariant
                    i <= self.ports.len(),
                    rules@ == self.ports@.take(i as int),
                decreases self.ports.len() - i,
            {
                rules.push(self.ports[i]);
                proof {
                    assert(self.ports@.take(i + 1 as int) =~= self.ports@.take(i as int).push(
                        self.ports@[i as int],
                    ));
                }
                i = i + 1;
            }
            proof {
                assert(self.ports@.take(self.ports@.len() as int) =~= self.ports@);
            }
            rules
        } else {
            Vec::new()
        }
    }
}

/// Releasing a guard is idempotent: after any release the guard is released,
/// a repeated release removes no rule, and a guard whose forwarding was never
/// started never has rules to remove — however the two are combined.
pub proof fn lemma_release_idempotent(g: GuardModel)
    ensures
        release_state(release_state(g)) == release_state(g),
        release_rules(release_state(g)) == Seq::<u16>::empty(),
        !g.started ==> release_rules(g) == Seq::<u16>::empty(),
{
}

} // verus!
