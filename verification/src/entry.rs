//! Entry records: one input contribution placed inside a memory-map segment,
//! with its optional fill and its object/library provenance.

use vstd::prelude::*;
use vstd::string::StringExecFns;

use crate::fill::{add_sizes, effective_size};
use crate::lex::option_view;

verus! {

/// One decoded record of a memory-map segment.
#[derive(Debug, Clone, PartialEq, Eq)]
pub struct Entry {
    /// Record name.
    pub name: String,
    /// Start address.
    pub address: u64,
    /// Size as printed in the map file, before any fill is merged.
    pub size: u64,
    /// Size of the fill line merged into this record, or zero.
    pub fill_size: u64,
    /// Address of the merged fill line, absent when no fill was merged.  Kept
    /// so that collaborators can diagnose a fill that is not contiguous with
    /// its record.
    pub fill_address: Option<u64>,
    /// Whether the merged fill sat at the record's own address.
    pub fill_overlaps: bool,
    /// The text span this record was decoded from.
    pub data: String,
    /// Name of the object file that contributed the record, if printed.
    pub object_name: Option<String>,
    /// Name of the library the object came from, if printed.
    pub library_name: Option<String>,
}

/// The record after the single fill-merge step.
pub open spec fn spec_set_fill(e: Entry, address: u64, size: u64) -> Entry {
    Entry {
        fill_size: size,
        fill_address: Some(address),
        fill_overlaps: e.fill_overlaps || address == e.address,
        ..e
    }
}

/// Effective size of a record, after the fill-overlap rule.
pub open spec fn spec_size(e: Entry) -> u64 {
    effective_size(e.size, e.fill_size, e.fill_overlaps)
}

/// The fill-contiguity rule: a merged fill should sit at the record's own
/// address or directly after its original footprint.  A record without a
/// merged fill satisfies it trivially; a violation is a diagnosable linker
/// anomaly, never a decode failure.
pub open spec fn spec_fill_contiguous(e: Entry) -> bool {
    match e.fill_address {
        None => true,
        Some(fa) => fa == e.address || fa as int == e.address as int + e.size as int,
    }
}

impl Entry {
    /// Creates a record with no fill and no provenance.
    pub fn new(name: &str, address: u64, size: u64, data: &str) -> (r: Entry)
        ensures
            r.name@ == name@,
            r.address == address,
            r.size == size,
            r.fill_size == 0,
            r.fill_address is None,
            !r.fill_overlaps,
            r.data@ == data@,
            r.object_name is None,
            r.library_name is None,
    {
        Entry {
            name: String::from_str(name),
            address,
            size,
            fill_size: 0,
            fill_address: None,
            fill_overlaps: false,
            data: String::from_str(data),
            object_name: None,
            library_name: None,
        }
    }

    pub fn set_object_name(&mut self, name: &str)
        ensures
            *final(self) == (Entry {
                object_name: final(self).object_name,
                ..*old(self)
            }),
            option_view(final(self).object_name) == Some(name@),
    {
        self.object_name = Some(String::from_str(name));
    }

    pub fn get_object_name(&self) -> (r: Option<&str>)
        ensures
            option_view(r) == option_view(self.object_name),
    {
        match &self.object_name {
            Some(n) => Some(n.as_str()),
            None => None,
        }
    }

    pub fn set_library_name(&mut self, name: &str)
        ensures
            *final(self) == (Entry {
                library_name: final(self).library_name,
                ..*old(self)
            }),
            option_view(final(self).library_name) == Some(name@),
    {
        self.library_name = Some(String::from_str(name));
    }

    pub fn get_library_name(&self) -> (r: Option<&str>)
        ensures
            option_view(r) == option_view(self.library_name),
    {
        match &self.library_name {
            Some(n) => Some(n.as_str()),
            None => None,
        }
    }

    /// Merges a fill line into the record: the fill size is recorded, and a
    /// fill at the record's own address marks the record as overlapped.
    pub fn set_fill(&mut self, address: u64, size: u64)
        ensures
            *final(self) == spec_set_fill(*old(self), address, size),
    {
        self.fill_size = size;
        self.fill_address = Some(address);
        if self.address == address {
            self.fill_overlaps = true;
        }
    }

    pub fn get_name(&self) -> (r: &str)
        ensures
            r@ == self.name@,
    {
        self.name.as_str()
    }

    pub fn get_address(&self) -> (r: u64)
        ensures
            r == self.address,
    {
        self.address
    }

    /// The text span this record was decoded from.
    pub fn get_data(&self) -> (r: &str)
        ensures
            r@ == self.data@,
    {
        self.data.as_str()
    }

    pub fn get_fill_size(&self) -> (r: u64)
        ensures
            r == self.fill_size,
    {
        self.fill_size
    }

    /// Address of the merged fill line, absent when no fill was merged.
    pub fn get_fill_address(&self) -> (r: Option<u64>)
        ensures
            r == self.fill_address,
    {
        self.fill_address
    }

    /// Whether the merged fill, if any, sits at the record's own address or
    /// directly after its original footprint.
    pub fn fill_contiguous(&self) -> (r: bool)
        ensures
            r == spec_fill_contiguous(*self),
    {
        match self.fill_address {
            None => true,
            Some(fa) => fa == self.address || (self.size <= u64::MAX - self.address && fa
                == self.address + self.size),
        }
    }

    pub fn get_fill_overlaps(&self) -> (r: bool)
        ensures
            r == self.fill_overlaps,
    {
        self.fill_overlaps
    }

    /// Effective size: the fill size alone when the fill overlapped the
    /// record, the sum of original and fill size otherwise.
    pub fn get_size(&self) -> (r: u64)
        ensures
            r == spec_size(*self),
    {
        if self.fill_overlaps {
            self.fill_size
        } else {
            add_sizes(self.size, self.fill_size)
        }
    }

    /// Size as printed in the map file, before fill merging.
    pub fn get_original_size(&self) -> (r: u64)
        ensures
            r == self.size,
    {
        self.size
    }
}

} // verus!
