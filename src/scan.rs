use vstd::prelude::*;
use crate::ports::{PortRange, open_in, increasing};
use vstd::arithmetic::div_mod::lemma_fundamental_div_mod;

verus! {

/// Number of distinct port numbers.
pub const PORT_COUNT: usize = 65536;

/// How long a probe waits for a connection, in milliseconds.
pub const PROBE_TIMEOUT_MS: u64 = 100;

/// How many workers share a scan.
pub const SCAN_WORKERS: u32 = 200;

/// The ports of `open`, each once, in increasing order.
pub open spec fn sorted_ports(open: Set<u16>) -> Seq<u16> {
    open_in(0, 0x10000, open)
}

/// Puts the ports that scan workers reported, in whatever order they arrived
/// and with any repetition, into increasing order, each port once.
pub fn collect_open_ports(found: &Vec<u16>) -> (r: Vec<u16>)
    ensures
        r@ == sorted_ports(found@.to_set()),
{
    let mut marked: Vec<bool> = Vec::new();
    let mut q: usize = 0;
    while q < PORT_COUNT
        invariant
            q <= PORT_COUNT,
            marked@.len() == q,
            forall|k: int| 0 <= k < q ==> !(#[trigger] marked@[k]),
        decreases PORT_COUNT - q,
    {
        marked.push(false);
        q = q + 1;
    }
    let mut i: usize = 0;
    while i < found.len()
        invariant
            i <= found@.len(),
            marked@.len() == PORT_COUNT,
            forall|k: int|
                0 <= k < PORT_COUNT ==> (#[trigger] marked@[k] <==> found@.subrange(0, i as int).contains(
                    k as u16,
                )),
        decreases found@.len() - i,
    {
        let p = found[i];
        marked.set(p as usize, true);
        proof {
            let prev = found@.subrange(0, i as int);
            let next = found@.subrange(0, i + 1);
            assert(next == prev.push(p));
            assert forall|k: int| 0 <= k < PORT_COUNT implies (#[trigger] marked@[k] <==> next.contains(k as u16)) by {
                if k == p as int {
                    assert(next[i as int] == p);
                } else if next.contains(k as u16) {
                    let j = choose|j: int| 0 <= j < next.len() && #[trigger] next[j] == k as u16;
                    assert(prev[j] == k as u16);
                } else if prev.contains(k as u16) {
                    let j = choose|j: int| 0 <= j < prev.len() && #[trigger] prev[j] == k as u16;
                    assert(next[j] == k as u16);
                }
            }
        }
        i = i + 1;
    }
    assert(found@.subrange(0, found@.len() as int) == found@);
    let ghost open = found@.to_set();
    let mut r: Vec<u16> = Vec::new();
    let mut p: usize = 0;
    while p < PORT_COUNT
        invariant
            p <= PORT_COUNT,
            marked@.len() == PORT_COUNT,
            forall|k: int| 0 <= k < PORT_COUNT ==> (#[trigger] marked@[k] <==> open.contains(k as u16)),
            r@ == open_in(0, p as int, open),
        decreases PORT_COUNT - p,
    {
        if marked[p] {
            r.push(p as u16);
        }
        p = p + 1;
    }
    r
}

/// Ports per worker when `len` ports are shared among `workers`: the
/// quotient rounded up, so that no port is left over.
pub open spec fn chunk_size(len: int, workers: int) -> int {
    (len + workers - 1) / workers
}

/// Where worker `i` of `workers` starts on `range`; worker `i` covers
/// `[chunk_bound(range, workers, i), chunk_bound(range, workers, i + 1))`.
pub open spec fn chunk_bound(range: PortRange, workers: int, i: int) -> int {
    let b = range.start + i * chunk_size(range.end - range.start, workers);
    if b < range.end { b } else { range.end as int }
}

/// What the workers report, taken in the order of the workers: each worker
/// lists the ports of `open` within its own sub-range, in increasing order.
pub open spec fn reports_upto(range: PortRange, workers: int, open: Set<u16>, k: int) -> Seq<u16>
    decreases k,
{
    if k <= 0 {
        Seq::empty()
    } else {
        reports_upto(range, workers, open, k - 1) + open_in(
            chunk_bound(range, workers, k - 1),
            chunk_bound(range, workers, k),
            open,
        )
    }
}

pub open spec fn reports(range: PortRange, workers: int, open: Set<u16>) -> Seq<u16> {
    reports_upto(range, workers, open, workers)
}

proof fn lemma_chunk_size(len: int, workers: int)
    requires
        0 <= len,
        1 <= workers,
    ensures
        0 <= chunk_size(len, workers) <= len,
        workers * chunk_size(len, workers) >= len,
{
    let x = len + workers - 1;
    let cs = x / workers;
    lemma_fundamental_div_mod(x, workers);
    let rem = x % workers;
    assert(0 <= rem < workers);
    assert(x == workers * cs + rem);
    assert(0 <= cs) by (nonlinear_arith)
        requires x == workers * cs + rem, 0 <= rem < workers, 0 <= x, 1 <= workers;
    assert(cs <= len) by (nonlinear_arith)
        requires x == workers * cs + rem, 0 <= rem, x == len + workers - 1, 1 <= workers, 0 <= len;
}

proof fn lemma_chunk_bounds(range: PortRange, workers: int, i: int, j: int)
    requires
        range.wf(),
        1 <= workers,
        0 <= i <= j,
    ensures
        chunk_bound(range, workers, 0) == range.start,
        chunk_bound(range, workers, workers) == range.end,
        range.start <= chunk_bound(range, workers, i) <= chunk_bound(range, workers, j) <= range.end,
{
    let cs = chunk_size(range.end - range.start, workers);
    lemma_chunk_size(range.end - range.start, workers);
    assert(i * cs <= j * cs) by (nonlinear_arith)
        requires 0 <= i <= j, 0 <= cs;
    assert(0 <= i * cs) by (nonlinear_arith)
        requires 0 <= i, 0 <= cs;
}

/// Listing `[a, b)` and then `[b, c)` lists `[a, c)`.
pub proof fn lemma_open_in_concat(a: int, b: int, c: int, open: Set<u16>)
    requires
        a <= b <= c,
    ensures
        open_in(a, b, open) + open_in(b, c, open) == open_in(a, c, open),
    decreases c - b,
{
    if c == b {
        assert(open_in(a, b, open) + open_in(b, c, open) =~= open_in(a, c, open));
    } else {
        lemma_open_in_concat(a, b, c - 1, open);
        let x = open_in(a, b, open);
        let y = open_in(b, c - 1, open);
        assert((x + y).push((c - 1) as u16) =~= x + y.push((c - 1) as u16));
    }
}

proof fn lemma_open_in_empty(a: int, b: int, open: Set<u16>)
    requires
        0 <= a,
        b <= 0x10000,
        forall|p: u16| open.contains(p) ==> !(a <= p < b),
    ensures
        open_in(a, b, open) == Seq::<u16>::empty(),
{
    crate::ports::lemma_open_in_bounds(a, b, open);
    let s = open_in(a, b, open);
    if s.len() > 0 {
        assert(s.contains(s[0]));
    }
    assert(s =~= Seq::<u16>::empty());
}

proof fn lemma_reports_upto(range: PortRange, workers: int, open: Set<u16>, k: int)
    requires
        range.wf(),
        1 <= workers,
        0 <= k,
    ensures
        reports_upto(range, workers, open, k) == open_in(range.start as int, chunk_bound(range, workers, k), open),
    decreases k,
{
    lemma_chunk_bounds(range, workers, 0, k);
    if k == 0 {
        assert(open_in(range.start as int, range.start as int, open) =~= Seq::<u16>::empty());
    } else {
        lemma_reports_upto(range, workers, open, k - 1);
        lemma_chunk_bounds(range, workers, k - 1, k);
        lemma_open_in_concat(
            range.start as int,
            chunk_bound(range, workers, k - 1),
            chunk_bound(range, workers, k),
            open,
        );
    }
}

/// Splits `range` among `workers` scan workers: contiguous sub-ranges of
/// equal size, in order, the last ones shorter or empty where the size does
/// not divide evenly.
pub fn partition(range: PortRange, workers: u32) -> (r: Vec<PortRange>)
    requires
        range.wf(),
        1 <= workers,
    ensures
        r@.len() == workers,
        forall|i: int|
            0 <= i < workers ==> (#[trigger] r@[i]).start == chunk_bound(range, workers as int, i)
                && r@[i].end == chunk_bound(range, workers as int, i + 1) && r@[i].wf(),
        r@[0].start == range.start,
        r@[workers - 1].end == range.end,
{
    let len: u64 = (range.end - range.start) as u64;
    let w: u64 = workers as u64;
    let cs: u64 = (len + w - 1) / w;
    proof {
        lemma_chunk_size(len as int, w as int);
        lemma_chunk_bounds(range, w as int, 0, w as int);
    }
    let mut r: Vec<PortRange> = Vec::new();
    let mut i: u64 = 0;
    let mut lo: u16 = range.start;
    while i < w
        invariant
            range.wf(),
            w == workers,
            1 <= w,
            cs == chunk_size(len as int, w as int),
            len == range.end - range.start,
            0 <= cs <= len,
            i <= w,
            lo == chunk_bound(range, w as int, i as int),
            r@.len() == i,
            forall|k: int|
                0 <= k < i ==> (#[trigger] r@[k]).start == chunk_bound(range, w as int, k)
                    && r@[k].end == chunk_bound(range, w as int, k + 1) && r@[k].wf(),
        decreases w - i,
    {
        assert((i + 1) * cs <= w * 65536) by (nonlinear_arith)
            requires i < w, cs <= 65535;
        let b: u64 = range.start as u64 + (i + 1) * cs;
        let hi: u16 = if b < range.end as u64 { b as u16 } else { range.end };
        proof {
            lemma_chunk_bounds(range, w as int, i as int, i + 1);
        }
        r.push(PortRange { start: lo, end: hi });
        lo = hi;
        i = i + 1;
    }
    r
}

/// A scan reports exactly the open ports of its range, in increasing order,
/// each once: however many workers share the range, and in whatever order
/// their reports arrive.
pub proof fn lemma_scan_exact(range: PortRange, workers: int, open: Set<u16>, arrived: Seq<u16>)
    requires
        range.wf(),
        1 <= workers,
        forall|p: u16| open.contains(p) ==> range.contains(p),
        arrived.to_set() == reports(range, workers, open).to_set(),
    ensures
        reports(range, workers, open) == open_in(range.start as int, range.end as int, open),
        sorted_ports(arrived.to_set()) == sorted_ports(open),
        sorted_ports(open) == open_in(range.start as int, range.end as int, open),
        increasing(sorted_ports(open)),
{
    lemma_reports_upto(range, workers, open, workers);
    lemma_chunk_bounds(range, workers, 0, workers);
    let whole = open_in(range.start as int, range.end as int, open);
    crate::ports::lemma_open_in_bounds(range.start as int, range.end as int, open);
    assert(arrived.to_set() =~= open) by {
        assert forall|p: u16| arrived.to_set().contains(p) <==> open.contains(p) by {
            assert(whole.contains(p) <==> (open.contains(p) && range.start <= p < range.end));
        }
    }
    lemma_open_in_empty(0, range.start as int, open);
    lemma_open_in_empty(range.end as int, 0x10000, open);
    lemma_open_in_concat(0, range.start as int, range.end as int, open);
    lemma_open_in_concat(0, range.end as int, 0x10000, open);
    assert(Seq::<u16>::empty() + whole =~= whole);
    assert(whole + Seq::<u16>::empty() =~= whole);
    crate::ports::lemma_open_in_bounds(0, 0x10000, open);
}

} // verus!
