//! The candidate address space: an ordered list of disjoint, half-open
//! address ranges over the 32-bit domain.
//!
//! The scan visits every address of the space exactly once, range by range
//! in the listed order, ascending within each range.  The spec-level view of
//! that order is [`space_addresses`]; the lemmas below establish that it
//! covers exactly the configured ranges and repeats no address.

use vstd::prelude::*;

verus! {

/// One half-open interval `[start, end)` of candidate addresses.
#[derive(Clone, Copy, PartialEq, Eq, Structural, Debug)]
pub struct AddressRange {
    pub start: u32,
    pub end: u32,
}

impl AddressRange {
    /// A range is well formed when it is not inverted.
    pub open spec fn wf(self) -> bool {
        self.start <= self.end
    }

    /// How many addresses the range holds.
    pub open spec fn size(self) -> nat {
        (self.end - self.start) as nat
    }

    /// The range's addresses in ascending order.
    pub open spec fn addresses(self) -> Seq<u32> {
        Seq::new(self.size(), |i: int| (self.start + i) as u32)
    }

    /// Whether `a` lies inside the half-open interval.
    pub open spec fn contains_addr(self, a: u32) -> bool {
        self.start <= a < self.end
    }
}

/// Two ranges share no address.
pub open spec fn ranges_disjoint(a: AddressRange, b: AddressRange) -> bool {
    a.end <= b.start || b.end <= a.start
}

/// A list of ranges is well formed when each range is and no two overlap.
pub open spec fn wf_ranges(rs: Seq<AddressRange>) -> bool {
    &&& forall|i: int| 0 <= i < rs.len() ==> (#[trigger] rs[i]).wf()
    &&& forall|i: int, j: int|
        0 <= i < j < rs.len() ==> ranges_disjoint(#[trigger] rs[i], #[trigger] rs[j])
}

/// The whole space's addresses in scan order: each range's ascending
/// addresses, range after range in the listed order.
pub open spec fn space_addresses(rs: Seq<AddressRange>) -> Seq<u32>
    decreases rs.len(),
{
    if rs.len() == 0 {
        Seq::empty()
    } else {
        rs[0].addresses() + space_addresses(rs.skip(1))
    }
}

/// Scan order distributes over concatenation of range lists.
pub proof fn lemma_space_addresses_concat(a: Seq<AddressRange>, b: Seq<AddressRange>)
    ensures
        space_addresses(a + b) == space_addresses(a) + space_addresses(b),
    decreases a.len(),
{
    if a.len() == 0 {
        assert(a + b =~= b);
        assert(space_addresses(a) + space_addresses(b) =~= space_addresses(b));
    } else {
        assert((a + b).skip(1) =~= a.skip(1) + b);
        lemma_space_addresses_concat(a.skip(1), b);
        assert(space_addresses(a + b) =~= space_addresses(a) + space_addresses(b));
    }
}

/// Taking one more range appends exactly that range's addresses.
pub proof fn lemma_space_addresses_take_succ(rs: Seq<AddressRange>, i: int)
    requires
        0 <= i < rs.len(),
    ensures
        space_addresses(rs.take(i + 1)) == space_addresses(rs.take(i)) + rs[i].addresses(),
{
    assert(rs.take(i + 1) =~= rs.take(i) + seq![rs[i]]);
    lemma_space_addresses_concat(rs.take(i), seq![rs[i]]);
    assert(seq![rs[i]].skip(1) =~= Seq::<AddressRange>::empty());
    assert(space_addresses(Seq::<AddressRange>::empty()) == Seq::<u32>::empty());
    assert(space_addresses(seq![rs[i]]) =~= rs[i].addresses());
}

/// The space splits at any range index into the prefix's and the suffix's
/// addresses.
pub proof fn lemma_space_addresses_split(rs: Seq<AddressRange>, i: int)
    requires
        0 <= i <= rs.len(),
    ensures
        space_addresses(rs) == space_addresses(rs.take(i)) + space_addresses(rs.skip(i)),
{
    assert(rs =~= rs.take(i) + rs.skip(i));
    lemma_space_addresses_concat(rs.take(i), rs.skip(i));
}

/// Every address of the space lies inside one of the listed ranges.
pub proof fn lemma_space_addresses_in_some_range(rs: Seq<AddressRange>)
    requires
        forall|i: int| 0 <= i < rs.len() ==> (#[trigger] rs[i]).wf(),
    ensures
        forall|k: int|
            0 <= k < space_addresses(rs).len() ==> exists|i: int|
                0 <= i < rs.len() && rs[i].contains_addr(#[trigger] space_addresses(rs)[k]),
    decreases rs.len(),
{
    if rs.len() > 0 {
        assert(forall|i: int| 0 <= i < rs.skip(1).len() ==> #[trigger] rs.skip(1)[i] == rs[i + 1]);
        lemma_space_addresses_in_some_range(rs.skip(1));
        assert forall|k: int| 0 <= k < space_addresses(rs).len() implies exists|i: int|
            0 <= i < rs.len() && rs[i].contains_addr(#[trigger] space_addresses(rs)[k]) by {
            let first = rs[0].addresses();
            if k < first.len() {
                assert(rs[0].contains_addr(space_addresses(rs)[k]));
            } else {
                let tail = space_addresses(rs.skip(1));
                assert(space_addresses(rs)[k] == tail[k - first.len()]);
                let i = choose|i: int|
                    0 <= i < rs.skip(1).len() && rs.skip(1)[i].contains_addr(
                        tail[k - first.len()],
                    );
                assert(rs[i + 1].contains_addr(space_addresses(rs)[k]));
            }
        }
    }
}

/// Conversely, every address inside a listed range occurs in the space.
pub proof fn lemma_range_addr_in_space(rs: Seq<AddressRange>, i: int, a: u32)
    requires
        0 <= i < rs.len(),
        rs[i].contains_addr(a),
    ensures
        space_addresses(rs).contains(a),
    decreases rs.len(),
{
    if i == 0 {
        let k: int = a - rs[0].start;
        assert(rs[0].addresses()[k] == a);
        assert(space_addresses(rs)[k] == a);
    } else {
        lemma_range_addr_in_space(rs.skip(1), i - 1, a);
        let k = choose|k: int|
            0 <= k < space_addresses(rs.skip(1)).len() && space_addresses(rs.skip(1))[k] == a;
        assert(space_addresses(rs)[rs[0].addresses().len() + k] == a);
    }
}

/// In a well-formed space no address is listed twice: within one range the
/// addresses ascend strictly, and distinct ranges are disjoint.
pub proof fn lemma_space_addresses_distinct(rs: Seq<AddressRange>)
    requires
        wf_ranges(rs),
    ensures
        forall|k1: int, k2: int|
            0 <= k1 < k2 < space_addresses(rs).len() ==> #[trigger] space_addresses(rs)[k1]
                != #[trigger] space_addresses(rs)[k2],
    decreases rs.len(),
{
    if rs.len() > 0 {
        let tail = rs.skip(1);
        assert(wf_ranges(tail)) by {
            assert(forall|i: int| 0 <= i < tail.len() ==> tail[i] == rs[i + 1]);
        }
        lemma_space_addresses_distinct(tail);
        lemma_space_addresses_in_some_range(tail);
        let first = rs[0].addresses();
        let rest = space_addresses(tail);
        assert forall|k1: int, k2: int|
            0 <= k1 < k2 < space_addresses(rs).len() implies #[trigger] space_addresses(rs)[k1]
            != #[trigger] space_addresses(rs)[k2] by {
            if k2 < first.len() {
                // both inside the first range: strictly ascending
                assert(space_addresses(rs)[k1] == rs[0].start + k1);
                assert(space_addresses(rs)[k2] == rs[0].start + k2);
            } else if k1 >= first.len() {
                // both in the remainder: distinct by induction
                assert(space_addresses(rs)[k1] == rest[k1 - first.len()]);
                assert(space_addresses(rs)[k2] == rest[k2 - first.len()]);
            } else {
                // one on each side: the first range is disjoint from the
                // range the second address lies in
                let a1 = space_addresses(rs)[k1];
                let a2 = space_addresses(rs)[k2];
                assert(a1 == first[k1]);
                assert(rs[0].contains_addr(a1));
                assert(a2 == rest[k2 - first.len()]);
                let i = choose|i: int|
                    0 <= i < tail.len() && tail[i].contains_addr(rest[k2 - first.len()]);
                assert(ranges_disjoint(rs[0], rs[i + 1]));
            }
        }
    }
}

/// Where inside the space an address of range `i` stands: after all of the
/// earlier ranges' addresses, offset by its distance from the range's start.
pub proof fn lemma_space_addresses_position(rs: Seq<AddressRange>, i: int, a: u32)
    requires
        0 <= i < rs.len(),
        forall|j: int| 0 <= j < rs.len() ==> (#[trigger] rs[j]).wf(),
        rs[i].contains_addr(a),
    ensures
        ({
            let p = space_addresses(rs.take(i)).len() + (a - rs[i].start);
            &&& 0 <= p < space_addresses(rs).len()
            &&& space_addresses(rs)[p] == a
        }),
{
    lemma_space_addresses_split(rs, i);
    let suffix = rs.skip(i);
    assert(suffix[0] == rs[i]);
    assert(suffix.skip(1) =~= rs.skip(i + 1));
    let off: int = a - rs[i].start;
    assert(rs[i].addresses()[off] == a);
    assert(space_addresses(suffix)[off] == a);
}

/// Coverage of a well-formed space: the scan order visits exactly the
/// addresses the configured ranges hold — an address occurs in it if and
/// only if some range contains it — and visits no address twice.
pub proof fn lemma_scan_coverage(rs: Seq<AddressRange>)
    requires
        wf_ranges(rs),
    ensures
        forall|a: u32|
            #[trigger] space_addresses(rs).contains(a) <==> exists|i: int|
                0 <= i < rs.len() && (#[trigger] rs[i]).contains_addr(a),
        forall|k1: int, k2: int|
            0 <= k1 < k2 < space_addresses(rs).len() ==> #[trigger] space_addresses(rs)[k1]
                != #[trigger] space_addresses(rs)[k2],
{
    lemma_space_addresses_distinct(rs);
    lemma_space_addresses_in_some_range(rs);
    assert forall|a: u32| #[trigger] space_addresses(rs).contains(a) implies exists|i: int|
        0 <= i < rs.len() && (#[trigger] rs[i]).contains_addr(a) by {
        let k = choose|k: int|
            0 <= k < space_addresses(rs).len() && space_addresses(rs)[k] == a;
        assert(exists|i: int|
            0 <= i < rs.len() && rs[i].contains_addr(#[trigger] space_addresses(rs)[k]));
    }
    assert forall|a: u32|
        (exists|i: int|
            0 <= i < rs.len() && (#[trigger] rs[i]).contains_addr(a)) implies #[trigger] space_addresses(
        rs,
    ).contains(a) by {
        let i = choose|i: int| 0 <= i < rs.len() && (#[trigger] rs[i]).contains_addr(a);
        lemma_range_addr_in_space(rs, i, a);
    }
}

/// The scan's immutable configuration: the target core and the candidate
/// address space, fixed before the scan starts.
pub struct ScanConfig {
    pub core_id: usize,
    pub ranges: Vec<AddressRange>,
}

impl ScanConfig {
    pub open spec fn wf(&self) -> bool {
        wf_ranges(self.ranges@)
    }

    /// Every candidate address, in scan order.
    pub open spec fn addresses(&self) -> Seq<u32> {
        space_addresses(self.ranges@)
    }

    /// How many candidate addresses the scan will visit.
    pub open spec fn total(&self) -> nat {
        self.addresses().len()
    }

    /// Validate a configuration once, at start-up: accepts exactly the
    /// lists whose ranges are individually well formed and pairwise
    /// disjoint.
    pub fn new(core_id: usize, ranges: Vec<AddressRange>) -> (r: Option<ScanConfig>)
        ensures
            match r {
                Some(c) => {
                    &&& wf_ranges(ranges@)
                    &&& c.wf()
                    &&& c.core_id == core_id
                    &&& c.ranges@ == ranges@
                },
                None => !wf_ranges(ranges@),
            },
    {
        let n = ranges.len();
        let mut i: usize = 0;
        while i < n
            invariant
                n == ranges@.len(),
                0 <= i <= n,
                forall|k: int| 0 <= k < i ==> (#[trigger] ranges@[k]).wf(),
            decreases n - i,
        {
            if ranges[i].start > ranges[i].end {
                return None;
            }
            i += 1;
        }
        let mut i: usize = 0;
        while i < n
            invariant
                n == ranges@.len(),
                0 <= i <= n,
                forall|k: int| 0 <= k < n ==> (#[trigger] ranges@[k]).wf(),
                forall|k1: int, k2: int|
                    0 <= k1 < k2 < n && k1 < i ==> ranges_disjoint(
                        #[trigger] ranges@[k1],
                        #[trigger] ranges@[k2],
                    ),
            decreases n - i,
        {
            let mut j: usize = i + 1;
            while j < n
                invariant
                    n == ranges@.len(),
                    0 <= i < n,
                    i < j <= n,
                    forall|k2: int|
                        i < k2 < j ==> ranges_disjoint(ranges@[i as int], #[trigger] ranges@[k2]),
                decreases n - j,
            {
                if !(ranges[i].end <= ranges[j].start || ranges[j].end <= ranges[i].start) {
                    return None;
                }
                j += 1;
            }
            i += 1;
        }
        Some(ScanConfig { core_id, ranges })
    }

    /// How many addresses one scan visits — `None` when the count does not
    /// fit the machine.
    pub fn address_count(&self) -> (r: Option<usize>)
        requires
            self.wf(),
        ensures
            match r {
                Some(n) => n == self.total(),
                None => self.total() > usize::MAX,
            },
    {
        let ghost rs = self.ranges@;
        let n = self.ranges.len();
        let mut count: usize = 0;
        let mut i: usize = 0;
        while i < n
            invariant
                rs == self.ranges@,
                wf_ranges(rs),
                n == rs.len(),
                0 <= i <= n,
                count == space_addresses(rs.take(i as int)).len(),
            decreases n - i,
        {
            let r = self.ranges[i];
            proof {
                assert(rs[i as int].wf());
            }
            let size = (r.end - r.start) as usize;
            proof {
                lemma_space_addresses_take_succ(rs, i as int);
            }
            count = match count.checked_add(size) {
                Some(c) => c,
                None => {
                    proof {
                        lemma_space_addresses_split(rs, i + 1);
                    }
                    return None;
                },
            };
            i += 1;
        }
        proof {
            assert(rs.take(n as int) =~= rs);
        }
        Some(count)
    }
}

} // verus!
