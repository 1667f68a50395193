//! The result map: the discovered registers, keyed by address.
//!
//! The map is built incrementally, one insertion per successful probe, and
//! its entries are kept in strictly ascending address order at all times, so
//! the final report can be emitted in ascending order whatever order the
//! scan discovered the registers in.  Strict ascent also means no address
//! ever has two entries.

use vstd::prelude::*;

verus! {

/// Entry keys strictly ascend, so each address occurs at most once.
pub open spec fn entries_sorted(s: Seq<(u32, u64)>) -> bool {
    forall|i: int, j: int| 0 <= i < j < s.len() ==> (#[trigger] s[i]).0 < (#[trigger] s[j]).0
}

/// The mathematical address-to-value map an entry list denotes.
pub open spec fn entries_map(s: Seq<(u32, u64)>) -> Map<u32, u64>
    decreases s.len(),
{
    if s.len() == 0 {
        Map::empty()
    } else {
        entries_map(s.drop_last()).insert(s.last().0, s.last().1)
    }
}

/// An address is a key of the denoted map exactly when some entry carries
/// it.
pub proof fn lemma_entries_map_domain(s: Seq<(u32, u64)>)
    ensures
        forall|k: u32|
            #[trigger] entries_map(s).contains_key(k) <==> (exists|i: int|
                0 <= i < s.len() && (#[trigger] s[i]).0 == k),
    decreases s.len(),
{
    if s.len() > 0 {
        lemma_entries_map_domain(s.drop_last());
        assert forall|k: u32| #[trigger] entries_map(s).contains_key(k) implies (exists|i: int|
            0 <= i < s.len() && (#[trigger] s[i]).0 == k) by {
            if k == s.last().0 {
                assert((s[s.len() - 1]).0 == k);
            } else {
                assert(entries_map(s.drop_last()).contains_key(k));
                let i = choose|i: int| 0 <= i < s.drop_last().len() && (#[trigger] s.drop_last()[i]).0 == k;
                assert(s.drop_last()[i] == s[i]);
                assert((s[i]).0 == k);
            }
        }
        assert forall|k: u32|
            (exists|i: int| 0 <= i < s.len() && (#[trigger] s[i]).0 == k) implies #[trigger] entries_map(
            s,
        ).contains_key(k) by {
            let i = choose|i: int| 0 <= i < s.len() && (#[trigger] s[i]).0 == k;
            if i < s.len() - 1 {
                assert((s.drop_last()[i]).0 == k);
                assert(entries_map(s.drop_last()).contains_key(k));
            }
        }
    }
}

/// When no entry already carries key `a`, inserting `(a, v)` at any
/// position makes the denoted map gain exactly that binding.
pub proof fn lemma_entries_map_insert(s: Seq<(u32, u64)>, p: int, a: u32, v: u64)
    requires
        0 <= p <= s.len(),
        forall|i: int| 0 <= i < s.len() ==> (#[trigger] s[i]).0 != a,
    ensures
        entries_map(s.insert(p, (a, v))) == entries_map(s).insert(a, v),
    decreases s.len(),
{
    let t = s.insert(p, (a, v));
    if p == s.len() {
        assert(t =~= s.push((a, v)));
        assert(t.drop_last() =~= s);
    } else {
        assert(t.last() == s.last());
        assert(t.drop_last() =~= s.drop_last().insert(p, (a, v)));
        lemma_entries_map_insert(s.drop_last(), p, a, v);
        let b = s.last().0;
        let w = s.last().1;
        let m = entries_map(s.drop_last());
        assert(b != a);
        assert(m.insert(a, v).insert(b, w) =~= m.insert(b, w).insert(a, v));
        assert(entries_map(t) == entries_map(s).insert(a, v));
    }
}

/// A sorted entry list is determined by the map it denotes: two result
/// maps that denote the same address-to-value map hold byte-identical
/// entries, whatever order their entries were inserted in.
pub proof fn lemma_sorted_entries_unique(s: Seq<(u32, u64)>, t: Seq<(u32, u64)>)
    requires
        entries_sorted(s),
        entries_sorted(t),
        entries_map(s) == entries_map(t),
    ensures
        s == t,
    decreases s.len(),
{
    lemma_entries_map_domain(s);
    lemma_entries_map_domain(t);
    if s.len() == 0 {
        if t.len() > 0 {
            assert(entries_map(t).contains_key(t[0].0));
            assert(false);
        }
        assert(s =~= t);
    } else {
        assert(entries_map(s).contains_key(s[s.len() - 1].0));
        if t.len() == 0 {
            assert(false);
        }
        let a = s.last().0;
        let b = t.last().0;
        // the last key of a sorted list is the largest key of its map, so
        // the two last keys agree
        assert(a == b) by {
            if a < b {
                assert(entries_map(t).contains_key(b));
                let i = choose|i: int| 0 <= i < s.len() && (#[trigger] s[i]).0 == b;
                assert(s[i].0 <= s[s.len() - 1].0);
                assert(false);
            }
            if b < a {
                assert(entries_map(s).contains_key(a));
                let i = choose|i: int| 0 <= i < t.len() && (#[trigger] t[i]).0 == a;
                assert(t[i].0 <= t[t.len() - 1].0);
                assert(false);
            }
        }
        // the values bound to that key agree too
        lemma_sorted_keys_distinct(s);
        lemma_sorted_keys_distinct(t);
        lemma_entries_map_index(s, s.len() - 1);
        lemma_entries_map_index(t, t.len() - 1);
        assert(s.last().1 == t.last().1);
        // peeling the last entry off leaves equal maps, so recurse
        lemma_entries_map_domain(s.drop_last());
        lemma_entries_map_domain(t.drop_last());
        assert(forall|k: int| 0 <= k < s.drop_last().len() ==> #[trigger] s.drop_last()[k] == s[k]);
        assert(forall|k: int| 0 <= k < t.drop_last().len() ==> #[trigger] t.drop_last()[k] == t[k]);
        assert(!entries_map(s.drop_last()).contains_key(a));
        assert(!entries_map(t.drop_last()).contains_key(a));
        assert(entries_map(s.drop_last()) =~= entries_map(s).remove(a));
        assert(entries_map(t.drop_last()) =~= entries_map(t).remove(a));
        lemma_sorted_entries_unique(s.drop_last(), t.drop_last());
        assert(s =~= s.drop_last().push(s.last()));
        assert(t =~= t.drop_last().push(t.last()));
    }
}

/// Strictly ascending keys repeat no address: the no-duplicate-keys
/// invariant of the result map.
pub proof fn lemma_sorted_keys_distinct(s: Seq<(u32, u64)>)
    requires
        entries_sorted(s),
    ensures
        forall|i: int, j: int|
            0 <= i < j < s.len() ==> (#[trigger] s[i]).0 != (#[trigger] s[j]).0,
{
}

/// The accumulated scan results: one `(address, value)` entry per
/// discovered register, in strictly ascending address order.
pub struct ResultMap {
    entries: Vec<(u32, u64)>,
}

impl ResultMap {
    /// The entries in their stored (ascending) order.
    pub closed spec fn entry_seq(&self) -> Seq<(u32, u64)> {
        self.entries@
    }

    /// Entries are kept strictly sorted by address.
    pub open spec fn wf(&self) -> bool {
        entries_sorted(self.entry_seq())
    }

    /// The address-to-value map the entries denote.
    pub open spec fn as_map(&self) -> Map<u32, u64> {
        entries_map(self.entry_seq())
    }

    /// The empty map, as the scan starts with.
    pub fn new() -> (m: ResultMap)
        ensures
            m.wf(),
            m.entry_seq() == Seq::<(u32, u64)>::empty(),
            m.as_map() == Map::<u32, u64>::empty(),
    {
        ResultMap { entries: Vec::new() }
    }

    /// How many registers were discovered.
    pub fn len(&self) -> (n: usize)
        ensures
            n == self.entry_seq().len(),
    {
        self.entries.len()
    }

    /// The `i`-th entry in ascending address order.
    pub fn entry_at(&self, i: usize) -> (e: (u32, u64))
        requires
            i < self.entry_seq().len(),
        ensures
            e == self.entry_seq()[i as int],
    {
        self.entries[i]
    }

    /// Record a newly discovered register.  The scan visits each address
    /// at most once, so the address is never already present; the entry is
    /// placed at its ascending position.
    pub fn insert(&mut self, addr: u32, value: u64)
        requires
            old(self).wf(),
            !old(self).as_map().contains_key(addr),
        ensures
            final(self).wf(),
            final(self).as_map() == old(self).as_map().insert(addr, value),
            final(self).entry_seq().len() == old(self).entry_seq().len() + 1,
    {
        proof {
            lemma_entries_map_domain(self.entry_seq());
        }
        let ghost s = self.entries@;
        let n = self.entries.len();
        let mut i: usize = 0;
        while i < n && self.entries[i].0 < addr
            invariant
                n == s.len(),
                s == self.entries@,
                0 <= i <= n,
                entries_sorted(s),
                forall|k: int| 0 <= k < s.len() ==> (#[trigger] s[k]).0 != addr,
                forall|k: int| 0 <= k < i ==> (#[trigger] s[k]).0 < addr,
            decreases n - i,
        {
            i += 1;
        }
        assert(i < n ==> s[i as int].0 > addr);
        proof {
            lemma_entries_map_insert(s, i as int, addr, value);
        }
        self.entries.insert(i, (addr, value));
        assert(entries_sorted(self.entries@)) by {
            let t = self.entries@;
            assert(forall|k: int| 0 <= k < i ==> #[trigger] t[k] == s[k]);
            assert(forall|k: int| i < k < t.len() ==> #[trigger] t[k] == s[k - 1]);
            assert(forall|k: int| i < k < t.len() ==> (#[trigger] t[k]).0 > addr);
        }
    }

    /// Look an address up.
    pub fn get(&self, addr: u32) -> (r: Option<u64>)
        requires
            self.wf(),
        ensures
            match r {
                Some(v) => self.as_map().contains_key(addr) && self.as_map()[addr] == v,
                None => !self.as_map().contains_key(addr),
            },
    {
        proof {
            lemma_entries_map_domain(self.entry_seq());
        }
        let ghost s = self.entries@;
        let n = self.entries.len();
        let mut i: usize = 0;
        while i < n
            invariant
                n == s.len(),
                s == self.entries@,
                0 <= i <= n,
                entries_sorted(s),
                forall|k: int| 0 <= k < i ==> (#[trigger] s[k]).0 != addr,
            decreases n - i,
        {
            let e = self.entries[i];
            if e.0 == addr {
                proof {
                    lemma_sorted_keys_distinct(s);
                    lemma_entries_map_index(s, i as int);
                }
                return Some(e.1);
            }
            i += 1;
        }
        None
    }
}

/// An entry's value is what the denoted map binds its address to, provided
/// no two entries share an address.
pub proof fn lemma_entries_map_index(s: Seq<(u32, u64)>, i: int)
    requires
        0 <= i < s.len(),
        forall|k1: int, k2: int|
            0 <= k1 < k2 < s.len() ==> (#[trigger] s[k1]).0 != (#[trigger] s[k2]).0,
    ensures
        entries_map(s).contains_key(s[i].0),
        entries_map(s)[s[i].0] == s[i].1,
    decreases s.len(),
{
    if i == s.len() - 1 {
        assert(s.last() == s[i]);
    } else {
        assert(forall|k: int| 0 <= k < s.drop_last().len() ==> #[trigger] s.drop_last()[k] == s[k]);
        lemma_entries_map_index(s.drop_last(), i);
        assert(s.last().0 != s[i].0);
    }
}

} // verus!
