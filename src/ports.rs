use vstd::prelude::*;

verus! {

/// A half-open interval `[start, end)` of TCP ports.
#[derive(Clone, Copy, Debug, PartialEq, Eq, Structural)]
pub struct PortRange {
    pub start: u16,
    pub end: u16,
}

/// The ports of `open` that lie in `[lo, hi)`, in increasing order.
pub open spec fn open_in(lo: int, hi: int, open: Set<u16>) -> Seq<u16>
    decreases hi - lo,
{
    if hi <= lo {
        Seq::empty()
    } else {
        let rest = open_in(lo, hi - 1, open);
        if open.contains((hi - 1) as u16) {
            rest.push((hi - 1) as u16)
        } else {
            rest
        }
    }
}

/// Each element is smaller than the next.
pub open spec fn increasing(s: Seq<u16>) -> bool {
    forall|i: int, j: int| 0 <= i < j < s.len() ==> s[i] < s[j]
}

/// First port of the range where the device listens.
pub const DISCOVERY_START: u16 = 30000;

/// End (exclusive) of the range where the device listens.
pub const DISCOVERY_END: u16 = 50000;

impl PortRange {
    pub open spec fn wf(self) -> bool {
        self.start <= self.end
    }

    pub open spec fn contains(self, p: u16) -> bool {
        self.start <= p < self.end
    }

    /// The range `[start, end)`, or `None` when `start > end`.
    pub fn new(start: u16, end: u16) -> (r: Option<PortRange>)
        ensures
            start <= end <==> r is Some,
            r matches Some(range) ==> range.start == start && range.end == end && range.wf(),
    {
        if start <= end {
            Some(PortRange { start, end })
        } else {
            None
        }
    }

    /// The range the device's listeners are looked for in: `[30000, 50000)`.
    pub fn discovery() -> (r: PortRange)
        ensures
            r.start == DISCOVERY_START && r.end == DISCOVERY_END,
            r.wf(),
    {
        PortRange { start: DISCOVERY_START, end: DISCOVERY_END }
    }

    /// Number of ports in the range.
    pub fn len(&self) -> (r: u16)
        requires
            self.wf(),
        ensures
            r == self.end - self.start,
    {
        self.end - self.start
    }
}

/// `open_in` lists exactly the ports of `open` in `[lo, hi)`, in increasing order.
pub proof fn lemma_open_in_bounds(lo: int, hi: int, open: Set<u16>)
    requires
        0 <= lo,
        hi <= 0x10000,
    ensures
        forall|p: u16| #[trigger] open_in(lo, hi, open).contains(p) <==> (open.contains(p) && lo <= p < hi),
        increasing(open_in(lo, hi, open)),
    decreases hi - lo,
{
    if hi > lo {
        lemma_open_in_bounds(lo, hi - 1, open);
        let rest = open_in(lo, hi - 1, open);
        if open.contains((hi - 1) as u16) {
            assert forall|p: u16| #[trigger] open_in(lo, hi, open).contains(p) <==> (open.contains(p) && lo <= p < hi) by {
                if p == hi - 1 {
                    assert(p == (hi - 1) as u16);
                    assert(rest.push((hi - 1) as u16)[rest.len() as int] == p);
                } else if open_in(lo, hi, open).contains(p) {
                    let k = choose|k: int| 0 <= k < rest.len() + 1 && #[trigger] rest.push((hi - 1) as u16)[k] == p;
                    assert(rest[k] == p);
                    assert(rest.contains(p));
                } else if open.contains(p) && lo <= p < hi {
                    assert(rest.contains(p));
                    let k = choose|k: int| 0 <= k < rest.len() && #[trigger] rest[k] == p;
                    assert(rest.push((hi - 1) as u16)[k] == p);
                }
            }
            assert forall|i: int, j: int| 0 <= i < j < rest.len() + 1 implies
                #[trigger] rest.push((hi - 1) as u16)[i] < #[trigger] rest.push((hi - 1) as u16)[j] by {
                if j == rest.len() {
                    assert(rest.contains(rest[i]));
                }
            }
        } else {
            assert forall|p: u16| #[trigger] open_in(lo, hi, open).contains(p) <==> (open.contains(p) && lo <= p < hi) by {
                if open.contains(p) && lo <= p < hi {
                    assert(p != hi - 1);
                }
            }
        }
    }
}

} // verus!
