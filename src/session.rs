use vstd::prelude::*;
use crate::ports::increasing;

verus! {

/// How long pairing is given to take effect before the connect race, in
/// milliseconds.
pub const SETTLE_DELAY_MS: u64 = 500;

/// Why a session ended without a connection.
#[derive(Clone, Copy, Debug, PartialEq, Eq, Structural)]
pub enum Failure {
    /// The host could not be turned into an address.
    ResolutionError,
    /// The scan found no open port.
    NoOpenPorts,
    /// The scan found one open port; pairing and service need two.
    InsufficientPorts,
    /// No open port accepted pairing.
    PairingFailed,
    /// No remaining open port accepted a connection.
    ConnectFailed,
}

/// Where a session stands. `Failed` and `Succeeded` are final.
#[derive(Clone, Copy, Debug, PartialEq, Eq, Structural)]
pub enum Stage {
    Resolving,
    Scanning,
    RacingPairing,
    Settling,
    RacingConnect,
    Succeeded,
    Failed(Failure),
}

/// The ports a successful session settled on.
#[derive(Clone, Copy, Debug, PartialEq, Eq, Structural)]
pub struct Connection {
    pub pairing_port: u16,
    pub service_port: u16,
}

/// `s` with every occurrence of `p` left out, the rest in order.
pub open spec fn without(s: Seq<u16>, p: u16) -> Seq<u16>
    decreases s.len(),
{
    if s.len() == 0 {
        Seq::empty()
    } else {
        let rest = without(s.drop_last(), p);
        if s.last() == p {
            rest
        } else {
            rest.push(s.last())
        }
    }
}

/// Process exit status for a session's result: 0 on success, 1 on any failure.
pub open spec fn exit_status(r: Result<Connection, Failure>) -> i32 {
    if r is Ok {
        0
    } else {
        1
    }
}

/// One run of discovery: resolve, scan, race pairing, settle, race connecting.
///
/// Each stage is entered once, in order; a failure in any stage ends the run.
pub struct Session {
    stage: Stage,
    open_ports: Vec<u16>,
    pairing_port: u16,
    service_port: u16,
}

impl Session {
    pub closed spec fn stage_view(self) -> Stage {
        self.stage
    }

    /// The open ports that the scan found.
    pub closed spec fn open_view(self) -> Seq<u16> {
        self.open_ports@
    }

    pub closed spec fn pairing_view(self) -> u16 {
        self.pairing_port
    }

    pub closed spec fn service_view(self) -> u16 {
        self.service_port
    }

    /// Once racing begins, there are at least two open ports, in increasing
    /// order; once pairing is won, the pairing port is one of them; on
    /// success the service port is another.
    pub open spec fn wf(self) -> bool {
        match self.stage_view() {
            Stage::Resolving | Stage::Scanning | Stage::Failed(_) => true,
            Stage::RacingPairing => self.open_view().len() >= 2 && increasing(self.open_view()),
            Stage::Settling | Stage::RacingConnect => {
                &&& self.open_view().len() >= 2
                &&& increasing(self.open_view())
                &&& self.open_view().contains(self.pairing_view())
            },
            Stage::Succeeded => {
                &&& self.open_view().len() >= 2
                &&& increasing(self.open_view())
                &&& self.open_view().contains(self.pairing_view())
                &&& self.open_view().contains(self.service_view())
                &&& self.service_view() != self.pairing_view()
            },
        }
    }

    /// A session about to resolve its host.
    pub fn new() -> (r: Session)
        ensures
            r.wf(),
            r.stage_view() == Stage::Resolving,
    {
        Session { stage: Stage::Resolving, open_ports: Vec::new(), pairing_port: 0, service_port: 0 }
    }

    pub fn stage(&self) -> (r: Stage)
        ensures
            r == self.stage_view(),
    {
        self.stage
    }

    /// Resolution finished: on success scanning begins.
    pub fn resolved(&mut self, ok: bool)
        requires
            old(self).stage_view() == Stage::Resolving,
        ensures
            final(self).wf(),
            final(self).stage_view() == (if ok {
                Stage::Scanning
            } else {
                Stage::Failed(Failure::ResolutionError)
            }),
    {
        if ok {
            self.stage = Stage::Scanning;
        } else {
            self.stage = Stage::Failed(Failure::ResolutionError);
        }
    }

    /// The scan found `open`: none and one end the session; two or more
    /// start the pairing race over all of them.
    pub fn scanned(&mut self, open: Vec<u16>)
        requires
            old(self).stage_view() == Stage::Scanning,
            increasing(open@),
        ensures
            final(self).wf(),
            final(self).stage_view() == (if open@.len() == 0 {
                Stage::Failed(Failure::NoOpenPorts)
            } else if open@.len() == 1 {
                Stage::Failed(Failure::InsufficientPorts)
            } else {
                Stage::RacingPairing
            }),
            final(self).open_view() == open@,
    {
        let n = open.len();
        self.open_ports = open;
        if n == 0 {
            self.stage = Stage::Failed(Failure::NoOpenPorts);
        } else if n == 1 {
            self.stage = Stage::Failed(Failure::InsufficientPorts);
        } else {
            self.stage = Stage::RacingPairing;
        }
    }

    /// The candidates of the pairing race: every open port.
    pub fn pairing_candidates(&self) -> (r: Vec<u16>)
        requires
            self.stage_view() == Stage::RacingPairing,
        ensures
            r@ == self.open_view(),
    {
        self.open_ports.clone()
    }

    /// The pairing race ended with `winner`: with none the session fails,
    /// with a port it waits for pairing to settle.
    pub fn paired(&mut self, winner: Option<u16>)
        requires
            old(self).wf(),
            old(self).stage_view() == Stage::RacingPairing,
            winner matches Some(p) ==> old(self).open_view().contains(p),
        ensures
            final(self).wf(),
            final(self).open_view() == old(self).open_view(),
            winner is None ==> final(self).stage_view() == Stage::Failed(Failure::PairingFailed),
            winner matches Some(p) ==> final(self).stage_view() == Stage::Settling
                && final(self).pairing_view() == p,
    {
        match winner {
            None => {
                self.stage = Stage::Failed(Failure::PairingFailed);
            },
            Some(p) => {
                self.pairing_port = p;
                self.stage = Stage::Settling;
            },
        }
    }

    /// The settle delay has passed: the connect race may begin.
    pub fn settled(&mut self)
        requires
            old(self).wf(),
            old(self).stage_view() == Stage::Settling,
        ensures
            final(self).wf(),
            final(self).stage_view() == Stage::RacingConnect,
            final(self).open_view() == old(self).open_view(),
            final(self).pairing_view() == old(self).pairing_view(),
    {
        self.stage = Stage::RacingConnect;
    }

    /// The candidates of the connect race: the open ports but the one that
    /// won pairing, in order.
    pub fn connect_candidates(&self) -> (r: Vec<u16>)
        requires
            self.stage_view() == Stage::RacingConnect,
        ensures
            r@ == without(self.open_view(), self.pairing_view()),
    {
        let mut r: Vec<u16> = Vec::new();
        let mut i: usize = 0;
        while i < self.open_ports.len()
            invariant
                i <= self.open_ports@.len(),
                r@ == without(self.open_ports@.subrange(0, i as int), self.pairing_port),
            decreases self.open_ports@.len() - i,
        {
            let q = self.open_ports[i];
            assert(self.open_ports@.subrange(0, i + 1).drop_last() == self.open_ports@.subrange(0, i as int));
            if q != self.pairing_port {
                r.push(q);
            }
            i = i + 1;
        }
        assert(self.open_ports@.subrange(0, self.open_ports@.len() as int) == self.open_ports@);
        r
    }

    /// The connect race ended with `winner`: with none the session fails,
    /// with a port it has succeeded.
    pub fn connected(&mut self, winner: Option<u16>)
        requires
            old(self).wf(),
            old(self).stage_view() == Stage::RacingConnect,
            winner matches Some(p) ==> without(old(self).open_view(), old(self).pairing_view()).contains(p),
        ensures
            final(self).wf(),
            final(self).open_view() == old(self).open_view(),
            final(self).pairing_view() == old(self).pairing_view(),
            winner is None ==> final(self).stage_view() == Stage::Failed(Failure::ConnectFailed),
            winner matches Some(p) ==> final(self).stage_view() == Stage::Succeeded
                && final(self).service_view() == p,
    {
        proof {
            if let Some(p) = winner {
                lemma_without(self.open_ports@, self.pairing_port);
            }
        }
        match winner {
            None => {
                self.stage = Stage::Failed(Failure::ConnectFailed);
            },
            Some(p) => {
                self.service_port = p;
                self.stage = Stage::Succeeded;
            },
        }
    }

    /// The session's result once it has ended, `None` while it runs.
    pub fn outcome(&self) -> (r: Option<Result<Connection, Failure>>)
        ensures
            self.stage_view() == Stage::Succeeded ==> r == Some(
                Ok::<Connection, Failure>(
                    Connection { pairing_port: self.pairing_view(), service_port: self.service_view() },
                ),
            ),
            self.stage_view() matches Stage::Failed(f) ==> r == Some(Err::<Connection, Failure>(f)),
            !(self.stage_view() is Succeeded || self.stage_view() is Failed) ==> r is None,
    {
        match self.stage {
            Stage::Succeeded => Some(
                Ok(Connection { pairing_port: self.pairing_port, service_port: self.service_port }),
            ),
            Stage::Failed(f) => Some(Err(f)),
            _ => None,
        }
    }
}

/// The exit status of a finished session: 0 on success, 1 on any failure.
pub fn exit_code(r: &Result<Connection, Failure>) -> (code: i32)
    ensures
        code == exit_status(*r),
{
    match r {
        Ok(_) => 0,
        Err(_) => 1,
    }
}

/// Leaving `p` out of `s` keeps every other element, in order.
pub proof fn lemma_without(s: Seq<u16>, p: u16)
    ensures
        forall|q: u16| #[trigger] without(s, p).contains(q) <==> (s.contains(q) && q != p),
        increasing(s) ==> increasing(without(s, p)),
        increasing(s) && s.contains(p) ==> without(s, p).len() == s.len() - 1,
    decreases s.len(),
{
    if s.len() > 0 {
        let init = s.drop_last();
        lemma_without(init, p);
        let rest = without(init, p);
        assert(s == init.push(s.last()));
        assert forall|q: u16| #[trigger] without(s, p).contains(q) <==> (s.contains(q) && q != p) by {
            if s.contains(q) && q != p {
                let k = choose|k: int| 0 <= k < s.len() && s[k] == q;
                if k < init.len() {
                    assert(init[k] == q);
                    assert(init.contains(q));
                    assert(rest.contains(q));
                    let k2 = choose|k2: int| 0 <= k2 < rest.len() && rest[k2] == q;
                    assert(rest.push(s.last())[k2] == q);
                } else {
                    assert(rest.push(s.last())[rest.len() as int] == q);
                }
            }
            if without(s, p).contains(q) {
                if s.last() != p {
                    let k = choose|k: int| 0 <= k < rest.len() + 1 && rest.push(s.last())[k] == q;
                    if k < rest.len() {
                        assert(rest[k] == q);
                        assert(rest.contains(q));
                    } else {
                        assert(s[s.len() - 1] == q);
                    }
                } else {
                    assert(rest.contains(q));
                }
                if init.contains(q) {
                    let k = choose|k: int| 0 <= k < init.len() && init[k] == q;
                    assert(s[k] == q);
                }
            }
        }
        if increasing(s) {
            assert(increasing(init));
            if s.last() != p {
                assert forall|i: int, j: int| 0 <= i < j < rest.len() + 1 implies
                    #[trigger] rest.push(s.last())[i] < #[trigger] rest.push(s.last())[j] by {
                    if j == rest.len() {
                        assert(rest.contains(rest[i]));
                        let k = choose|k: int| 0 <= k < init.len() && init[k] == rest[i];
                        assert(s[k] < s[s.len() - 1]);
                    }
                }
            }
            if s.contains(p) {
                if s.last() == p {
                    assert forall|k: int| 0 <= k < init.len() implies init[k] != p by {
                        assert(s[k] < s[s.len() - 1]);
                    }
                    assert(!init.contains(p));
                    lemma_without_absent(init, p);
                } else {
                    let k = choose|k: int| 0 <= k < s.len() && s[k] == p;
                    assert(init[k] == p);
                    assert(init.contains(p));
                }
            }
        }
    }
}

proof fn lemma_without_absent(s: Seq<u16>, p: u16)
    requires
        !s.contains(p),
    ensures
        without(s, p) == s,
    decreases s.len(),
{
    if s.len() > 0 {
        let init = s.drop_last();
        assert(!init.contains(p)) by {
            if init.contains(p) {
                let k = choose|k: int| 0 <= k < init.len() && init[k] == p;
                assert(s[k] == p);
            }
        }
        lemma_without_absent(init, p);
        assert(s.last() != p) by {
            assert(s[s.len() - 1] == s.last());
        }
        assert(init.push(s.last()) == s);
    }
}

/// During the connect race its candidates are the open ports less exactly
/// the pairing port: one fewer, in order, every other open port present.
pub proof fn lemma_connect_excludes_pairing(session: Session)
    requires
        session.wf(),
        session.stage_view() == Stage::RacingConnect,
    ensures
        without(session.open_view(), session.pairing_view()).to_set()
            == session.open_view().to_set().remove(session.pairing_view()),
        without(session.open_view(), session.pairing_view()).len() == session.open_view().len() - 1,
        increasing(without(session.open_view(), session.pairing_view())),
{
    lemma_without(session.open_view(), session.pairing_view());
    assert(without(session.open_view(), session.pairing_view()).to_set()
        =~= session.open_view().to_set().remove(session.pairing_view()));
}

} // verus!
