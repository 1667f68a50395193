//! The scan driver: one linear, single-pass sweep over the candidate
//! address space.
//!
//! The driver owns the position in the space and the accumulated
//! [`ResultMap`].  It hands out the next address to probe, and is told each
//! probe's [`ProbeOutcome`]: a success is inserted into the map, an expected
//! absence is skipped silently, and an unexpected failure aborts the scan —
//! no address after it is handed out, and no map is released.
//!
//! The mathematical summary of a whole sweep is [`scan_model`]; the lemmas
//! below state that the sweep is a pure function of each address's outcome
//! and that it stops at the first unexpected failure.

use crate::outcome::{
    failure_detail, is_success, is_unexpected_failure, success_value, ProbeFailure, ProbeOutcome,
};
use crate::results::ResultMap;
use crate::space::{
    lemma_space_addresses_distinct, lemma_space_addresses_position, lemma_space_addresses_take_succ,
    space_addresses, wf_ranges, AddressRange, ScanConfig,
};
use vstd::prelude::*;

verus! {

/// What the driver did with one recorded outcome.
#[derive(Clone, Copy, PartialEq, Eq, Structural, Debug)]
pub enum ScanStep {
    /// The probe succeeded; the register was added to the result map.
    Found,
    /// The register does not exist; the address was skipped silently.
    Skipped,
    /// An unexpected failure; the scan is over and yields no map.
    Aborted,
}

/// How one recorded outcome transforms the result of a scan so far.
pub open spec fn scan_step_model(
    r: Result<Map<u32, u64>, ProbeFailure>,
    a: u32,
    o: ProbeOutcome,
) -> Result<Map<u32, u64>, ProbeFailure> {
    match r {
        Ok(m) => match o {
            ProbeOutcome::Success(v) => Ok(m.insert(a, v)),
            ProbeOutcome::ExpectedFailure => Ok(m),
            ProbeOutcome::UnexpectedFailure(d) => Err(d),
        },
        Err(d) => Err(d),
    }
}

/// The result of sweeping the addresses `addrs` when the probe of
/// `addrs[i]` comes out as `outs[i]`: the map of all successes, unless some
/// probe fails unexpectedly — then the detail of the first such failure.
pub open spec fn scan_model(addrs: Seq<u32>, outs: Seq<ProbeOutcome>) -> Result<
    Map<u32, u64>,
    ProbeFailure,
>
    recommends
        addrs.len() == outs.len(),
    decreases addrs.len(),
{
    if addrs.len() == 0 {
        Ok(Map::empty())
    } else {
        match outs[0] {
            ProbeOutcome::UnexpectedFailure(d) => Err(d),
            _ => scan_step_model(scan_model(addrs.skip(1), outs.skip(1)), addrs[0], outs[0]),
        }
    }
}

/// Appending one probed address applies exactly one step to the model.
/// When the appended probe succeeded, its address must be new — the scan
/// never probes an address twice — for the appended insertion to commute
/// with the earlier ones.
pub proof fn lemma_scan_model_snoc(addrs: Seq<u32>, outs: Seq<ProbeOutcome>, a: u32, o: ProbeOutcome)
    requires
        addrs.len() == outs.len(),
        is_success(o) ==> forall|i: int| 0 <= i < addrs.len() ==> addrs[i] != a,
    ensures
        scan_model(addrs.push(a), outs.push(o)) == scan_step_model(scan_model(addrs, outs), a, o),
    decreases addrs.len(),
{
    if addrs.len() == 0 {
        assert(addrs.push(a).skip(1) =~= Seq::<u32>::empty());
        assert(outs.push(o).skip(1) =~= Seq::<ProbeOutcome>::empty());
        assert(scan_model(Seq::<u32>::empty(), Seq::<ProbeOutcome>::empty()) == Ok::<
            Map<u32, u64>,
            ProbeFailure,
        >(Map::empty()));
    } else {
        assert(addrs.push(a).skip(1) =~= addrs.skip(1).push(a));
        assert(outs.push(o).skip(1) =~= outs.skip(1).push(o));
        assert(is_success(o) ==> forall|i: int|
            0 <= i < addrs.skip(1).len() ==> #[trigger] addrs.skip(1)[i] != a);
        lemma_scan_model_snoc(addrs.skip(1), outs.skip(1), a, o);
        let inner = scan_model(addrs.skip(1), outs.skip(1));
        match outs[0] {
            ProbeOutcome::UnexpectedFailure(d) => {},
            ProbeOutcome::ExpectedFailure => {},
            ProbeOutcome::Success(v0) => {
                match inner {
                    Err(d) => {},
                    Ok(m) => {
                        match o {
                            ProbeOutcome::Success(v) => {
                                assert(addrs[0] != a);
                                assert(m.insert(a, v).insert(addrs[0], v0) =~= m.insert(
                                    addrs[0],
                                    v0,
                                ).insert(a, v));
                            },
                            _ => {},
                        }
                    },
                }
            },
        }
    }
}

/// Once a prefix of the sweep has failed, the rest of the sweep changes
/// nothing: the whole sweep's result is the failed prefix's.
pub proof fn lemma_scan_model_err_extends(addrs: Seq<u32>, outs: Seq<ProbeOutcome>, n: int)
    requires
        addrs.len() == outs.len(),
        0 <= n <= addrs.len(),
        scan_model(addrs.take(n), outs.take(n)) is Err,
    ensures
        scan_model(addrs, outs) == scan_model(addrs.take(n), outs.take(n)),
    decreases addrs.len(),
{
    if n == 0 {
        assert(addrs.take(0) =~= Seq::<u32>::empty());
        assert(outs.take(0) =~= Seq::<ProbeOutcome>::empty());
        assert(scan_model(Seq::<u32>::empty(), Seq::<ProbeOutcome>::empty()) == Ok::<
            Map<u32, u64>,
            ProbeFailure,
        >(Map::empty()));
    } else {
        assert(addrs.take(n)[0] == addrs[0]);
        assert(outs.take(n)[0] == outs[0]);
        match outs[0] {
            ProbeOutcome::UnexpectedFailure(d) => {},
            _ => {
                assert(addrs.take(n).skip(1) =~= addrs.skip(1).take(n - 1));
                assert(outs.take(n).skip(1) =~= outs.skip(1).take(n - 1));
                let inner = scan_model(addrs.skip(1).take(n - 1), outs.skip(1).take(n - 1));
                assert(scan_model(addrs.take(n), outs.take(n)) == scan_step_model(
                    inner,
                    addrs[0],
                    outs[0],
                ));
                assert(inner is Err);
                lemma_scan_model_err_extends(addrs.skip(1), outs.skip(1), n - 1);
            },
        }
    }
}

/// A sweep with no unexpected failure anywhere completes with a map.
pub proof fn lemma_scan_model_ok(addrs: Seq<u32>, outs: Seq<ProbeOutcome>)
    requires
        addrs.len() == outs.len(),
        forall|i: int| 0 <= i < outs.len() ==> !is_unexpected_failure(#[trigger] outs[i]),
    ensures
        scan_model(addrs, outs) is Ok,
    decreases addrs.len(),
{
    if addrs.len() > 0 {
        assert(forall|i: int|
            0 <= i < outs.skip(1).len() ==> #[trigger] outs.skip(1)[i] == outs[i + 1]);
        lemma_scan_model_ok(addrs.skip(1), outs.skip(1));
    }
}

/// If the probe of the `n`-th address (in scan order) fails unexpectedly,
/// and no earlier one does, the sweep's result is that failure, and it is
/// already determined by the first `n + 1` addresses: the outcomes of all
/// later addresses are irrelevant, as the driver never probes them.
pub proof fn lemma_abort_on_first_unexpected(addrs: Seq<u32>, outs: Seq<ProbeOutcome>, n: int)
    requires
        addrs.len() == outs.len(),
        0 <= n < outs.len(),
        is_unexpected_failure(outs[n]),
        forall|i: int| 0 <= i < n ==> !is_unexpected_failure(#[trigger] outs[i]),
    ensures
        scan_model(addrs, outs) == Err::<Map<u32, u64>, ProbeFailure>(failure_detail(outs[n])),
        scan_model(addrs, outs) == scan_model(addrs.take(n + 1), outs.take(n + 1)),
{
    assert(forall|i: int| 0 <= i < n ==> !is_unexpected_failure(#[trigger] outs.take(n)[i]));
    lemma_scan_model_ok(addrs.take(n), outs.take(n));
    assert(addrs.take(n + 1) =~= addrs.take(n).push(addrs[n]));
    assert(outs.take(n + 1) =~= outs.take(n).push(outs[n]));
    lemma_scan_model_snoc(addrs.take(n), outs.take(n), addrs[n], outs[n]);
    lemma_scan_model_err_extends(addrs, outs, n + 1);
}

/// The outcome sequence a pure accessor `f` yields over `addrs`.
pub open spec fn outcomes_for(addrs: Seq<u32>, f: spec_fn(u32) -> ProbeOutcome) -> Seq<
    ProbeOutcome,
> {
    addrs.map_values(f)
}

/// Determinism: when each probe's outcome is a pure function of its
/// address, the scan's result is a function of the address space and that
/// outcome function alone — two accessors that agree on every candidate
/// address give byte-identical results.
pub proof fn lemma_scan_deterministic(
    addrs: Seq<u32>,
    f: spec_fn(u32) -> ProbeOutcome,
    g: spec_fn(u32) -> ProbeOutcome,
)
    requires
        forall|a: u32| addrs.contains(a) ==> f(a) == g(a),
    ensures
        scan_model(addrs, outcomes_for(addrs, f)) == scan_model(addrs, outcomes_for(addrs, g)),
{
    assert(outcomes_for(addrs, f) =~= outcomes_for(addrs, g)) by {
        assert forall|i: int| 0 <= i < addrs.len() implies outcomes_for(addrs, f)[i]
            == outcomes_for(addrs, g)[i] by {
            assert(addrs.contains(addrs[i]));
        }
    }
}

/// The scan driver: owns the immutable candidate space, the current
/// position in it, and the results accumulated so far.
pub struct Scanner {
    ranges: Vec<AddressRange>,
    idx: usize,
    cur: u32,
    found: ResultMap,
    failure: Option<ProbeFailure>,
}

impl Scanner {
    /// The candidate space the driver was configured with.
    pub closed spec fn ranges_seq(&self) -> Seq<AddressRange> {
        self.ranges@
    }

    /// Every candidate address, in scan order.
    pub open spec fn addresses(&self) -> Seq<u32> {
        space_addresses(self.ranges_seq())
    }

    /// How many candidate addresses the whole scan visits.
    pub open spec fn total(&self) -> int {
        self.addresses().len() as int
    }

    /// How many candidate addresses have been probed so far.
    pub closed spec fn pos(&self) -> int {
        space_addresses(self.ranges@.take(self.idx as int)).len() + if self.idx
            < self.ranges@.len() {
            self.cur - self.ranges@[self.idx as int].start
        } else {
            0
        }
    }

    /// Whether an unexpected failure has ended the scan.
    pub closed spec fn aborted(&self) -> bool {
        self.failure is Some
    }

    /// The detail of the failure that ended the scan, if one did.
    pub closed spec fn failure_view(&self) -> Option<ProbeFailure> {
        self.failure
    }

    /// The map of the registers discovered so far.
    pub closed spec fn found_map(&self) -> Map<u32, u64> {
        self.found.as_map()
    }

    /// The driver's invariant: the space is well formed, the position
    /// designates either a pending address inside a nonempty range or the
    /// end of the space, the accumulated map is sorted, and every
    /// accumulated address was probed earlier in the sweep.
    pub closed spec fn wf(&self) -> bool {
        &&& wf_ranges(self.ranges@)
        &&& self.idx <= self.ranges@.len()
        &&& (self.idx == self.ranges@.len() || (self.ranges@[self.idx as int].start <= self.cur
            < self.ranges@[self.idx as int].end))
        &&& self.found.wf()
        &&& forall|a: u32|
            #[trigger] self.found.as_map().contains_key(a) ==> exists|i: int|
                0 <= i < self.pos() && #[trigger] self.addresses()[i] == a
    }

    /// Move past any empty ranges so that the position either designates
    /// an address that exists or the end of the space.  Consumes no
    /// address: the probed count stays as it was.
    fn settle(&mut self)
        requires
            wf_ranges(old(self).ranges@),
            old(self).idx <= old(self).ranges@.len(),
            old(self).idx < old(self).ranges@.len()
                ==> old(self).cur == old(self).ranges@[old(self).idx as int].start,
        ensures
            final(self).ranges@ == old(self).ranges@,
            final(self).found == old(self).found,
            final(self).failure == old(self).failure,
            old(self).idx <= final(self).idx <= final(self).ranges@.len(),
            final(self).idx == final(self).ranges@.len()
                || (final(self).ranges@[final(self).idx as int].start <= final(self).cur
                    < final(self).ranges@[final(self).idx as int].end),
            space_addresses(final(self).ranges@.take(final(self).idx as int)).len()
                == space_addresses(old(self).ranges@.take(old(self).idx as int)).len(),
            final(self).pos() == space_addresses(old(self).ranges@.take(old(self).idx as int)).len(),
    {
        let ghost rs = self.ranges@;
        let ghost p0 = space_addresses(rs.take(old(self).idx as int)).len();
        let n = self.ranges.len();
        while self.idx < n && self.ranges[self.idx].start == self.ranges[self.idx].end
            invariant
                self.ranges@ == rs,
                wf_ranges(rs),
                n == rs.len(),
                old(self).idx <= self.idx <= n,
                self.idx < n ==> self.cur == rs[self.idx as int].start,
                space_addresses(rs.take(self.idx as int)).len() == p0,
                self.found == old(self).found,
                self.failure == old(self).failure,
            decreases n - self.idx,
        {
            proof {
                lemma_space_addresses_take_succ(rs, self.idx as int);
                assert(rs[self.idx as int].addresses().len() == 0);
            }
            self.idx += 1;
            if self.idx < n {
                self.cur = self.ranges[self.idx].start;
            }
        }
    }

    /// Start a scan of a validated candidate space, with nothing probed
    /// and nothing found.
    pub fn new(space: ScanConfig) -> (s: Scanner)
        requires
            space.wf(),
        ensures
            s.wf(),
            s.addresses() == space.addresses(),
            s.pos() == 0,
            !s.aborted(),
            s.found_map() == Map::<u32, u64>::empty(),
    {
        let mut s = Scanner {
            ranges: space.ranges,
            idx: 0,
            cur: 0,
            found: ResultMap::new(),
            failure: None,
        };
        if s.ranges.len() > 0 {
            s.cur = s.ranges[0].start;
        }
        proof {
            assert(s.ranges@.take(0) =~= Seq::<AddressRange>::empty());
        }
        s.settle();
        s
    }

    /// The next address to probe: `None` exactly when the scan is over,
    /// because the space is exhausted or an unexpected failure aborted it.
    pub fn next_address(&self) -> (r: Option<u32>)
        requires
            self.wf(),
        ensures
            match r {
                Some(a) => !self.aborted() && self.pos() < self.total() && a == self.addresses()[self.pos()],
                None => self.aborted() || self.pos() == self.total(),
            },
    {
        if self.failure.is_some() {
            None
        } else if self.idx == self.ranges.len() {
            proof {
                assert(self.ranges@.take(self.idx as int) =~= self.ranges@);
            }
            None
        } else {
            proof {
                lemma_space_addresses_position(self.ranges@, self.idx as int, self.cur);
            }
            Some(self.cur)
        }
    }

    /// Record the outcome of probing the current address, and step to the
    /// next one.  Exactly one of three things happens: a success is
    /// inserted into the result map, an expected absence leaves it
    /// untouched, or an unexpected failure marks the scan aborted.
    pub fn record(&mut self, outcome: ProbeOutcome) -> (step: ScanStep)
        requires
            old(self).wf(),
            !old(self).aborted(),
            old(self).pos() < old(self).total(),
        ensures
            final(self).wf(),
            final(self).addresses() == old(self).addresses(),
            final(self).pos() == old(self).pos() + 1,
            final(self).aborted() == is_unexpected_failure(outcome),
            final(self).failure_view() == (if is_unexpected_failure(outcome) {
                Some(failure_detail(outcome))
            } else {
                None::<ProbeFailure>
            }),
            final(self).found_map() == (if is_success(outcome) {
                old(self).found_map().insert(
                    old(self).addresses()[old(self).pos()],
                    success_value(outcome),
                )
            } else {
                old(self).found_map()
            }),
            step == (match outcome {
                ProbeOutcome::Success(_) => ScanStep::Found,
                ProbeOutcome::ExpectedFailure => ScanStep::Skipped,
                ProbeOutcome::UnexpectedFailure(_) => ScanStep::Aborted,
            }),
    {
        let ghost rs = self.ranges@;
        proof {
            if self.idx == self.ranges.len() {
                assert(rs.take(self.idx as int) =~= rs);
            }
            lemma_space_addresses_position(rs, self.idx as int, self.cur);
            lemma_space_addresses_distinct(rs);
        }
        let addr = self.cur;
        let ghost p = self.pos();
        let step = match outcome {
            ProbeOutcome::Success(v) => {
                proof {
                    if self.found.as_map().contains_key(addr) {
                        let i = choose|i: int|
                            0 <= i < self.pos() && #[trigger] self.addresses()[i] == addr;
                        assert(self.addresses()[p] == addr);
                        assert(false);
                    }
                }
                self.found.insert(addr, v);
                ScanStep::Found
            },
            ProbeOutcome::ExpectedFailure => ScanStep::Skipped,
            ProbeOutcome::UnexpectedFailure(d) => {
                self.failure = Some(d);
                ScanStep::Aborted
            },
        };
        // step past the probed address, and past any empty ranges after it
        if self.cur + 1 < self.ranges[self.idx].end {
            self.cur = self.cur + 1;
        } else {
            proof {
                lemma_space_addresses_take_succ(rs, self.idx as int);
            }
            self.idx += 1;
            if self.idx < self.ranges.len() {
                self.cur = self.ranges[self.idx].start;
            }
            self.settle();
        }
        proof {
            assert forall|a: u32| #[trigger] self.found.as_map().contains_key(a) implies exists|
                i: int,
            | 0 <= i < self.pos() && #[trigger] self.addresses()[i] == a by {
                if is_success(outcome) && a == old(self).addresses()[p] {
                    assert(self.addresses()[p] == a);
                } else {
                    assert(old(self).found.as_map().contains_key(a));
                    let i = choose|i: int|
                        0 <= i < old(self).pos() && #[trigger] old(self).addresses()[i] == a;
                    assert(self.addresses()[i] == a);
                }
            }
        }
        step
    }

    /// Hand the scan's result over: the accumulated map after a complete
    /// sweep, or the failure's detail — and no map — after an abort.
    pub fn finish(self) -> (r: Result<ResultMap, ProbeFailure>)
        requires
            self.wf(),
            self.aborted() || self.pos() == self.total(),
        ensures
            (r is Err) == self.aborted(),
            match r {
                Ok(m) => {
                    &&& m.wf()
                    &&& m.as_map() == self.found_map()
                },
                Err(d) => self.failure_view() == Some(d),
            },
    {
        match self.failure {
            Some(d) => Err(d),
            None => Ok(self.found),
        }
    }
}

/// Run one whole scan against a precomputed outcome per candidate address
/// (`outcomes[i]` answers the `i`-th address in scan order).  Returns the
/// result map of every successful probe — in ascending address order —
/// unless some probe fails unexpectedly; then the first such failure's
/// detail, and no map.
pub fn scan_with_outcomes(space: ScanConfig, outcomes: &Vec<ProbeOutcome>) -> (r: Result<
    ResultMap,
    ProbeFailure,
>)
    requires
        space.wf(),
        outcomes@.len() == space.total(),
    ensures
        match (r, scan_model(space.addresses(), outcomes@)) {
            (Ok(m), Ok(mm)) => m.wf() && m.as_map() == mm,
            (Err(d), Err(dd)) => d == dd,
            _ => false,
        },
{
    let ghost addrs = space.addresses();
    proof {
        lemma_space_addresses_distinct(space.ranges@);
    }
    let mut scanner = Scanner::new(space);
    let n = outcomes.len();
    let mut k: usize = 0;
    while k < n
        invariant
            scanner.wf(),
            scanner.addresses() == addrs,
            addrs == space.addresses(),
            n == outcomes@.len(),
            n == addrs.len(),
            0 <= k <= n,
            scanner.pos() == k,
            !scanner.aborted(),
            forall|i: int, j: int| 0 <= i < j < addrs.len() ==> addrs[i] != addrs[j],
            scan_model(addrs.take(k as int), outcomes@.take(k as int)) == Ok::<
                Map<u32, u64>,
                ProbeFailure,
            >(scanner.found_map()),
        decreases n - k,
    {
        let o = outcomes[k];
        proof {
            assert(addrs.take(k + 1) =~= addrs.take(k as int).push(addrs[k as int]));
            assert(outcomes@.take(k + 1) =~= outcomes@.take(k as int).push(outcomes@[k as int]));
            assert(forall|i: int|
                0 <= i < addrs.take(k as int).len() ==> #[trigger] addrs.take(k as int)[i]
                    != addrs[k as int]);
            lemma_scan_model_snoc(
                addrs.take(k as int),
                outcomes@.take(k as int),
                addrs[k as int],
                outcomes@[k as int],
            );
        }
        let step = scanner.record(o);
        match step {
            ScanStep::Aborted => {
                proof {
                    lemma_scan_model_err_extends(addrs, outcomes@, k + 1);
                }
                return scanner.finish();
            },
            _ => {},
        }
        k += 1;
    }
    proof {
        assert(addrs.take(n as int) =~= addrs);
        assert(outcomes@.take(n as int) =~= outcomes@);
    }
    scanner.finish()
}

} // verus!
