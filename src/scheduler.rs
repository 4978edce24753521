use vstd::prelude::*;
use crate::error::ScanError;
use crate::range::{AddressRange, HostCursor};
use crate::resolver::{resolution, resolve, InterfaceAddress, TargetAddress};

verus! {

/// What the outside probe mechanism reported for one address.
#[derive(Debug, Clone, Copy, PartialEq, Eq, Structural)]
pub enum ProbeStatus {
    /// It ran and exited with this code; 0 means the host answered.
    Exited(i32),
    /// It ran but ended without an exit code.
    Terminated,
    /// It could not be started at all.
    LaunchFailed,
}

/// The verdict on one address.
#[derive(Debug, Clone, Copy, PartialEq, Eq, Structural)]
pub enum ProbeOutcome {
    Reachable(u32),
    Unreachable(u32),
    Error(u32),
}

impl ProbeOutcome {
    pub open spec fn spec_address(&self) -> u32 {
        match *self {
            ProbeOutcome::Reachable(a) => a,
            ProbeOutcome::Unreachable(a) => a,
            ProbeOutcome::Error(a) => a,
        }
    }

    pub fn address(&self) -> (r: u32)
        ensures
            r == self.spec_address(),
    {
        match *self {
            ProbeOutcome::Reachable(a) => a,
            ProbeOutcome::Unreachable(a) => a,
            ProbeOutcome::Error(a) => a,
        }
    }
}

pub open spec fn outcome_of(host: u32, status: ProbeStatus) -> ProbeOutcome {
    match status {
        ProbeStatus::Exited(code) => if code == 0 {
            ProbeOutcome::Reachable(host)
        } else {
            ProbeOutcome::Unreachable(host)
        },
        ProbeStatus::Terminated => ProbeOutcome::Unreachable(host),
        ProbeStatus::LaunchFailed => ProbeOutcome::Error(host),
    }
}

/// The verdict on `host` from what its probe reported: exit code 0 is
/// reachable, any other exit unreachable, a probe that could not be started
/// an error.
pub fn interpret(host: u32, status: ProbeStatus) -> (r: ProbeOutcome)
    ensures
        r == outcome_of(host, status),
{
    match status {
        ProbeStatus::Exited(code) => if code == 0 {
            ProbeOutcome::Reachable(host)
        } else {
            ProbeOutcome::Unreachable(host)
        },
        ProbeStatus::Terminated => ProbeOutcome::Unreachable(host),
        ProbeStatus::LaunchFailed => ProbeOutcome::Error(host),
    }
}

/// The reachable addresses among `outcomes`, in the order they came.
pub open spec fn reachable_of(outcomes: Seq<ProbeOutcome>) -> Seq<u32>
    decreases outcomes.len(),
{
    if outcomes.len() == 0 {
        Seq::empty()
    } else {
        let rest = reachable_of(outcomes.drop_last());
        match outcomes.last() {
            ProbeOutcome::Reachable(a) => rest.push(a),
            _ => rest,
        }
    }
}

/// The reachable addresses among `outcomes`, in the order they came.
pub fn collect_reachable(outcomes: &Vec<ProbeOutcome>) -> (r: Vec<u32>)
    ensures
        r@ == reachable_of(outcomes@),
{
    let mut r: Vec<u32> = Vec::new();
    let mut i: usize = 0;
    while i < outcomes.len()
        invariant
            i <= outcomes@.len(),
            r@ == reachable_of(outcomes@.take(i as int)),
        decreases outcomes@.len() - i,
    {
        proof {
            assert(outcomes@.take(i + 1).drop_last() =~= outcomes@.take(i as int));
        }
        match outcomes[i] {
            ProbeOutcome::Reachable(a) => r.push(a),
            _ => {},
        }
        i = i + 1;
    }
    proof {
        assert(outcomes@.take(outcomes@.len() as int) =~= outcomes@);
    }
    r
}

/// Everything a scan needs, fixed before the first probe.
#[derive(Debug, Clone, Copy, PartialEq, Eq, Structural)]
pub struct ScanTarget {
    pub ip: u32,
    pub range: AddressRange,
    pub pool_size: usize,
    pub timeout_millis: u64,
}

impl ScanTarget {
    pub open spec fn wf(&self) -> bool {
        self.range.wf() && self.pool_size > 0
    }

    /// A scan of `range` with at most `pool_size` probes in flight; a pool of
    /// size zero is a configuration error.
    pub fn new(ip: u32, range: AddressRange, pool_size: usize, timeout_millis: u64) -> (r: Result<
        ScanTarget,
        ScanError,
    >)
        requires
            range.wf(),
        ensures
            match r {
                Ok(t) => pool_size > 0 && t.wf() && t == (ScanTarget {
                    ip,
                    range,
                    pool_size,
                    timeout_millis,
                }),
                Err(e) => pool_size == 0 && e == ScanError::InvalidPoolSize,
            },
    {
        if pool_size == 0 {
            Err(ScanError::InvalidPoolSize)
        } else {
            Ok(ScanTarget { ip, range, pool_size, timeout_millis })
        }
    }
}

/// The scan that a request describes: the pool size is checked first, then
/// the target is resolved to a network.
pub open spec fn planned(
    target: TargetAddress,
    prefix: Option<u8>,
    mask: Option<u32>,
    table: Seq<InterfaceAddress>,
    pool_size: usize,
    timeout_millis: u64,
) -> Result<ScanTarget, ScanError> {
    if pool_size == 0 {
        Err(ScanError::InvalidPoolSize)
    } else {
        match (target, resolution(target, prefix, mask, table)) {
            (TargetAddress::V4(ip), Ok(range)) => Ok(ScanTarget { ip, range, pool_size, timeout_millis }),
            (_, Err(e)) => Err(e),
            (TargetAddress::V6(_), Ok(_)) => Err(ScanError::NotSupported),
        }
    }
}

/// Builds the scan for a request, or says why there is none; nothing is
/// probed before this has succeeded.
pub fn plan_scan(
    target: TargetAddress,
    prefix: Option<u8>,
    mask: Option<u32>,
    table: &Vec<InterfaceAddress>,
    pool_size: usize,
    timeout_millis: u64,
) -> (r: Result<ScanTarget, ScanError>)
    ensures
        r == planned(target, prefix, mask, table@, pool_size, timeout_millis),
        r is Ok ==> r->Ok_0.wf(),
{
    if pool_size == 0 {
        return Err(ScanError::InvalidPoolSize);
    }
    match target {
        TargetAddress::V6(_) => Err(ScanError::NotSupported),
        TargetAddress::V4(ip) => match resolve(target, prefix, mask, table) {
            Ok(range) => ScanTarget::new(ip, range, pool_size, timeout_millis),
            Err(e) => Err(e),
        },
    }
}

/// A pool of size zero is refused before anything else is looked at.
pub proof fn lemma_empty_pool_refused(
    target: TargetAddress,
    prefix: Option<u8>,
    mask: Option<u32>,
    table: Seq<InterfaceAddress>,
    timeout_millis: u64,
)
    ensures
        planned(target, prefix, mask, table, 0, timeout_millis) == Err::<ScanTarget, ScanError>(
            ScanError::InvalidPoolSize,
        ),
{
}

/// What the runner of a scan is to do next.
#[derive(Debug, Clone, Copy, PartialEq, Eq, Structural)]
pub enum Action {
    /// Start a probe of this address.
    Submit(u32),
    /// Wait for a probe in flight to report, then `record` it.
    Await,
    /// Every address was probed and every outcome recorded.
    Finished,
}

/// The decisions of a scan: which address to probe next, when to wait,
/// and which outcomes to keep. The runner performs the probes.
pub struct Scheduler {
    pub target: ScanTarget,
    pub cursor: HostCursor,
    pub in_flight: usize,
    pub reachable: Vec<u32>,
    pub outcomes: Ghost<Seq<ProbeOutcome>>,
}

impl Scheduler {
    /// How many addresses have been handed out for probing.
    pub open spec fn submitted_count(&self) -> int {
        self.cursor.pos as int
    }

    /// The addresses handed out so far, in the order they went.
    pub open spec fn submitted(&self) -> Seq<u32> {
        self.target.range.hosts().take(self.submitted_count())
    }

    pub open spec fn wf(&self) -> bool {
        &&& self.target.wf()
        &&& self.cursor.wf()
        &&& self.cursor.range == self.target.range
        &&& self.in_flight <= self.target.pool_size
        &&& self.in_flight <= self.submitted_count()
        &&& self.outcomes@.len() == self.submitted_count() - self.in_flight
        &&& self.reachable@ == reachable_of(self.outcomes@)
    }

    /// A scan of `target` that has probed nothing yet.
    pub fn new(target: ScanTarget) -> (s: Scheduler)
        requires
            target.wf(),
        ensures
            s.wf(),
            s.target == target,
            s.submitted_count() == 0,
            s.in_flight == 0,
            s.outcomes@ == Seq::<ProbeOutcome>::empty(),
    {
        Scheduler {
            target,
            cursor: target.range.iter(),
            in_flight: 0,
            reachable: Vec::new(),
            outcomes: Ghost(Seq::empty()),
        }
    }

    /// The next step: submit the next address while the pool has room and
    /// addresses remain, else wait while probes are in flight, else finish.
    pub fn step(&mut self) -> (a: Action)
        requires
            old(self).wf(),
        ensures
            final(self).wf(),
            final(self).target == old(self).target,
            final(self).outcomes == old(self).outcomes,
            final(self).reachable@ == old(self).reachable@,
            ({
                let s = old(self);
                let size = s.target.range.size();
                if s.submitted_count() < size && s.in_flight < s.target.pool_size {
                    &&& a == Action::Submit(s.target.range.hosts()[s.submitted_count()])
                    &&& final(self).submitted_count() == s.submitted_count() + 1
                    &&& final(self).in_flight == s.in_flight + 1
                } else {
                    &&& final(self).submitted_count() == s.submitted_count()
                    &&& final(self).in_flight == s.in_flight
                    &&& a == if s.in_flight > 0 {
                        Action::Await
                    } else {
                        Action::Finished
                    }
                }
            }),
    {
        if self.in_flight < self.target.pool_size {
            let next = self.cursor.next();
            match next {
                Some(host) => {
                    self.in_flight = self.in_flight + 1;
                    return Action::Submit(host);
                },
                None => {},
            }
        } else {
            proof {
                assert(self.cursor.remaining().len() == self.target.range.size() - self.cursor.pos);
            }
        }
        if self.in_flight > 0 {
            Action::Await
        } else {
            Action::Finished
        }
    }

    /// Takes in the outcome of a probe in flight; a reachable address joins
    /// the result.
    pub fn record(&mut self, outcome: ProbeOutcome)
        requires
            old(self).wf(),
            old(self).in_flight > 0,
        ensures
            final(self).wf(),
            final(self).target == old(self).target,
            final(self).submitted_count() == old(self).submitted_count(),
            final(self).in_flight == old(self).in_flight - 1,
            final(self).outcomes@ == old(self).outcomes@.push(outcome),
            final(self).reachable@ == match outcome {
                ProbeOutcome::Reachable(a) => old(self).reachable@.push(a),
                _ => old(self).reachable@,
            },
    {
        self.in_flight = self.in_flight - 1;
        proof {
            self.outcomes@ = self.outcomes@.push(outcome);
            assert(self.outcomes@.drop_last() =~= old(self).outcomes@);
        }
        match outcome {
            ProbeOutcome::Reachable(a) => self.reachable.push(a),
            _ => {},
        }
    }

    /// The reachable addresses recorded so far, in arrival order.
    pub fn reachable(&self) -> (r: &Vec<u32>)
        requires
            self.wf(),
        ensures
            r@ == reachable_of(self.outcomes@),
    {
        &self.reachable
    }
}

/// When a scan reports `Finished`, every address of the block was handed
/// out once, in ascending order, and an outcome was recorded for each.
pub proof fn lemma_finished_scan_complete(s: Scheduler)
    requires
        s.wf(),
        !(s.submitted_count() < s.target.range.size() && s.in_flight < s.target.pool_size),
        s.in_flight == 0,
    ensures
        s.submitted() == s.target.range.hosts(),
        s.outcomes@.len() == s.target.range.size(),
{
    assert(s.submitted() =~= s.target.range.hosts());
}

/// An address is collected exactly when some outcome reports it reachable.
proof fn lemma_reachable_members(outcomes: Seq<ProbeOutcome>, a: u32)
    ensures
        reachable_of(outcomes).contains(a) <==> exists|i: int|
            0 <= i < outcomes.len() && outcomes[i] == ProbeOutcome::Reachable(a),
    decreases outcomes.len(),
{
    if outcomes.len() > 0 {
        let init = outcomes.drop_last();
        let rest = reachable_of(init);
        let n = outcomes.len() - 1;
        lemma_reachable_members(init, a);
        if exists|i: int| 0 <= i < init.len() && init[i] == ProbeOutcome::Reachable(a) {
            let i = choose|i: int| 0 <= i < init.len() && init[i] == ProbeOutcome::Reachable(a);
            assert(outcomes[i] == init[i]);
        }
        if exists|i: int| 0 <= i < outcomes.len() && outcomes[i] == ProbeOutcome::Reachable(a) {
            let i = choose|i: int| 0 <= i < outcomes.len() && outcomes[i] == ProbeOutcome::Reachable(a);
            if i < n {
                assert(init[i] == outcomes[i]);
            }
        }
        match outcomes.last() {
            ProbeOutcome::Reachable(b) => {
                let s = rest.push(b);
                assert(s[rest.len() as int] == b);
                if rest.contains(a) {
                    let k = choose|k: int| 0 <= k < rest.len() && rest[k] == a;
                    assert(s[k] == a);
                }
                if s.contains(a) && a != b {
                    let k = choose|k: int| 0 <= k < s.len() && s[k] == a;
                    assert(rest[k] == a);
                }
            },
            _ => {},
        }
    }
}

/// Outcomes for distinct addresses collect no address twice.
proof fn lemma_reachable_distinct(outcomes: Seq<ProbeOutcome>)
    requires
        outcomes.map_values(|o: ProbeOutcome| o.spec_address()).no_duplicates(),
    ensures
        reachable_of(outcomes).no_duplicates(),
    decreases outcomes.len(),
{
    if outcomes.len() > 0 {
        let init = outcomes.drop_last();
        let addrs = outcomes.map_values(|o: ProbeOutcome| o.spec_address());
        assert(init.map_values(|o: ProbeOutcome| o.spec_address()) =~= addrs.drop_last());
        lemma_reachable_distinct(init);
        match outcomes.last() {
            ProbeOutcome::Reachable(a) => {
                lemma_reachable_members(init, a);
                if reachable_of(init).contains(a) {
                    let i = choose|i: int| 0 <= i < init.len() && init[i] == ProbeOutcome::Reachable(a);
                    assert(addrs[i] == addrs[outcomes.len() - 1]);
                }
                let s = reachable_of(outcomes);
                assert forall|x: int, y: int| 0 <= x < s.len() && 0 <= y < s.len() && x != y
                    implies s[x] != s[y] by {
                    if y == s.len() - 1 {
                        assert(reachable_of(init).contains(s[x]));
                    } else if x == s.len() - 1 {
                        assert(reachable_of(init).contains(s[y]));
                    }
                }
            },
            _ => {},
        }
    }
}

/// A scan over a block where each address was probed once: the collected
/// addresses are exactly those whose probe succeeded, none twice and none
/// left out, whatever the order the outcomes arrived in.
pub proof fn lemma_scan_result_exact(
    range: AddressRange,
    outcomes: Seq<ProbeOutcome>,
    answered: spec_fn(u32) -> bool,
)
    requires
        range.wf(),
        outcomes.map_values(|o: ProbeOutcome| o.spec_address()).no_duplicates(),
        outcomes.map_values(|o: ProbeOutcome| o.spec_address()).to_set() == range.hosts().to_set(),
        forall|i: int|
            0 <= i < outcomes.len() ==> (#[trigger] outcomes[i] is Reachable <==> answered(
                outcomes[i].spec_address(),
            )),
    ensures
        reachable_of(outcomes).no_duplicates(),
        reachable_of(outcomes).to_set() == range.hosts().to_set().filter(answered),
{
    lemma_reachable_distinct(outcomes);
    let addrs = outcomes.map_values(|o: ProbeOutcome| o.spec_address());
    assert forall|a: u32| reachable_of(outcomes).to_set().contains(a)
        <==> range.hosts().to_set().filter(answered).contains(a) by {
        lemma_reachable_members(outcomes, a);
        if reachable_of(outcomes).contains(a) {
            let i = choose|i: int| 0 <= i < outcomes.len() && outcomes[i] == ProbeOutcome::Reachable(a);
            assert(addrs[i] == a);
            assert(addrs.to_set().contains(a));
        }
        if range.hosts().to_set().filter(answered).contains(a) {
            assert(addrs.to_set().contains(a));
            let i = choose|i: int| 0 <= i < addrs.len() && addrs[i] == a;
            assert(outcomes[i] is Reachable);
        }
    }
    assert(reachable_of(outcomes).to_set() =~= range.hosts().to_set().filter(answered));
}

} // verus!
