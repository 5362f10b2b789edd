//! Segments: top-level placement units of the memory map, each holding an
//! ordered list of entry records.

use vstd::prelude::*;
use vstd::string::StringExecFns;

use crate::entry::{spec_size, Entry};
use crate::fill::{add_sizes, sat_add};

verus! {

/// One memory-map segment: a name, an optional address/size pair (both
/// present or both absent), and its records in source order.
#[derive(Debug, Clone, PartialEq, Eq)]
pub struct Segment {
    pub name: String,
    pub address: Option<u64>,
    pub size: Option<u64>,
    pub entries: Vec<Entry>,
}

/// Remainder of the coalescing walk over `entries` from position `i`, given
/// the address and effective size of the most recent record and the sum of
/// the groups already closed.  Consecutive records that share one address
/// count only the last record's effective size.
pub open spec fn walk_total(
    entries: Seq<Entry>,
    i: int,
    last_address: u64,
    last_size: u64,
    sum: u64,
) -> u64
    decreases entries.len() - i,
{
    if i < 0 || i >= entries.len() {
        sat_add(sum, last_size)
    } else if entries[i].address == last_address {
        walk_total(entries, i + 1, last_address, spec_size(entries[i]), sum)
    } else {
        walk_total(
            entries,
            i + 1,
            entries[i].address,
            spec_size(entries[i]),
            sat_add(sum, last_size),
        )
    }
}

/// Total effective size of a record list under same-address coalescing.
pub open spec fn coalesced_total(entries: Seq<Entry>) -> u64 {
    if entries.len() == 0 {
        0
    } else {
        walk_total(entries, 1, entries[0].address, spec_size(entries[0]), 0)
    }
}

/// Record `i` closes a same-address group: it is the last record, or the
/// next record sits at a different address.
pub open spec fn closes_group(entries: Seq<Entry>, i: int) -> bool {
    0 <= i < entries.len() && (i == entries.len() - 1 || entries[i + 1].address
        != entries[i].address)
}

/// Sum of the effective sizes of the group-closing records at or after `i`.
pub open spec fn group_sum(entries: Seq<Entry>, i: int) -> int
    decreases entries.len() - i,
{
    if i < 0 || i >= entries.len() {
        0
    } else {
        (if closes_group(entries, i) {
            spec_size(entries[i]) as int
        } else {
            0
        }) + group_sum(entries, i + 1)
    }
}

proof fn lemma_group_sum_nonneg(entries: Seq<Entry>, i: int)
    ensures
        group_sum(entries, i) >= 0,
    decreases entries.len() - i,
{
    if 0 <= i < entries.len() {
        lemma_group_sum_nonneg(entries, i + 1);
    }
}

proof fn lemma_walk_is_group_sum(entries: Seq<Entry>, i: int, sum: u64)
    requires
        1 <= i <= entries.len(),
    ensures
        walk_total(entries, i, entries[i - 1].address, spec_size(entries[i - 1]), sum) as int == (
        if sum + group_sum(entries, i - 1) <= u64::MAX {
            sum + group_sum(entries, i - 1)
        } else {
            u64::MAX as int
        }),
    decreases entries.len() - i,
{
    lemma_group_sum_nonneg(entries, i);
    if i == entries.len() {
        assert(closes_group(entries, i - 1));
        assert(group_sum(entries, i - 1) == spec_size(entries[i - 1]) as int);
    } else {
        if entries[i].address == entries[i - 1].address {
            assert(!closes_group(entries, i - 1));
            lemma_walk_is_group_sum(entries, i + 1, sum);
        } else {
            assert(closes_group(entries, i - 1));
            lemma_walk_is_group_sum(entries, i + 1, sat_add(sum, spec_size(entries[i - 1])));
        }
    }
}

/// The coalesced segment total in closed form: the sum of the effective
/// sizes of the last record of each run of records sharing one address,
/// capped at the largest representable value.
pub proof fn lemma_coalesced_total_is_group_sum(entries: Seq<Entry>)
    ensures
        coalesced_total(entries) as int == if group_sum(entries, 0) <= u64::MAX {
            group_sum(entries, 0)
        } else {
            u64::MAX as int
        },
{
    if entries.len() == 0 {
    } else {
        lemma_walk_is_group_sum(entries, 1, 0);
    }
}

/// Same-address coalescing: of two consecutive records at one address, only
/// the later one's effective size counts towards the segment total.
pub proof fn lemma_same_address_coalescing(e1: Entry, e2: Entry)
    requires
        e1.address == e2.address,
    ensures
        coalesced_total(seq![e1, e2]) == spec_size(e2),
{
    let s = seq![e1, e2];
    assert(coalesced_total(s) == walk_total(s, 1, e1.address, spec_size(e1), 0));
    assert(walk_total(s, 1, e1.address, spec_size(e1), 0) == walk_total(
        s,
        2,
        e1.address,
        spec_size(e2),
        0,
    ));
    assert(walk_total(s, 2, e1.address, spec_size(e2), 0) == sat_add(0, spec_size(e2)));
}

impl Segment {
    /// Creates a segment with no address, no size and no records.
    pub fn new(name: &str) -> (r: Segment)
        ensures
            r.name@ == name@,
            r.address is None,
            r.size is None,
            r.entries@ == Seq::<Entry>::empty(),
    {
        Segment { name: String::from_str(name), address: None, size: None, entries: Vec::new() }
    }

    pub fn set_size_and_address(&mut self, size: u64, address: u64)
        ensures
            *final(self) == (Segment {
                address: Some(address),
                size: Some(size),
                ..*old(self)
            }),
    {
        self.address = Some(address);
        self.size = Some(size);
    }

    /// Sum of the records' effective sizes under same-address coalescing.
    pub fn get_entries_total_size(&self) -> (r: u64)
        ensures
            r == coalesced_total(self.entries@),
    {
        let n = self.entries.len();
        if n == 0 {
            return 0;
        }
        let mut last_address: u64 = self.entries[0].get_address();
        let mut last_size: u64 = self.entries[0].get_size();
        let mut sum: u64 = 0;
        let mut i: usize = 1;
        while i < n
            invariant
                1 <= i <= n == self.entries@.len(),
                walk_total(self.entries@, i as int, last_address, last_size, sum)
                    == coalesced_total(self.entries@),
            decreases n - i,
        {
            let e = &self.entries[i];
            if last_address == e.get_address() {
                last_size = e.get_size();
            } else {
                sum = add_sizes(sum, last_size);
                last_size = e.get_size();
                last_address = e.get_address();
            }
            i = i + 1;
        }
        add_sizes(sum, last_size)
    }

    pub fn add_entry(&mut self, entry: Entry)
        ensures
            final(self).entries@ == old(self).entries@.push(entry),
            final(self).name == old(self).name,
            final(self).address == old(self).address,
            final(self).size == old(self).size,
    {
        self.entries.push(entry);
    }

    pub fn get_entries(&self) -> (r: &[Entry])
        ensures
            r@ == self.entries@,
    {
        self.entries.as_slice()
    }

    pub fn get_size(&self) -> (r: Option<u64>)
        ensures
            r == self.size,
    {
        self.size
    }

    pub fn get_name(&self) -> (r: &str)
        ensures
            r@ == self.name@,
    {
        self.name.as_str()
    }

    pub fn get_address(&self) -> (r: Option<u64>)
        ensures
            r == self.address,
    {
        self.address
    }
}

} // verus!
