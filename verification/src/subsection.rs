//! Sub-section records: one input contribution inside a memory-map section,
//! for the section-granularity decoding mode.

use vstd::prelude::*;
use vstd::string::{StrSliceExecFns, StringExecFns};

use crate::errors::ParserError;
use crate::fill::{add_sizes, effective_size};
use crate::grammar::{
    entry_info_in_line, find_fill_from, spec_decode_subsection, spec_find_fill,
    spec_sub_from_str, name_only_line, RecSpec,
};
use crate::lex::{
    all_names_in, all_spaces_in, chars_of, hex_token_value, is_name_char, line_len, name_run,
    scan_line_end, scan_name_end, spec_lines, spec_tokens, split_lines, tokens_in,
};

verus! {

/// One decoded sub-section record.
#[derive(Debug, Clone, PartialEq, Eq)]
pub struct SubSection {
    /// Sub-section name.
    pub name: String,
    /// Start address.
    pub address: u64,
    /// Size as printed in the map file, before any fill is merged.
    pub size: u64,
    /// Size of the fill line merged into this record, or zero.
    pub fill_size: u64,
    /// Address of the merged fill line, absent when no fill was merged.  Kept
    /// so that collaborators can diagnose a fill that is not contiguous with
    /// its record.
    pub fill_address: Option<u64>,
    /// Whether the merged fill sat at the record's own address.
    pub fill_overlaps: bool,
    /// The text span this record was decoded from, empty when built directly.
    pub data: String,
}

/// The sub-section after one fill-merge step.
pub open spec fn spec_set_fill(s: SubSection, address: u64, size: u64) -> SubSection {
    SubSection {
        fill_size: size,
        fill_address: Some(address),
        fill_overlaps: s.fill_overlaps || address == s.address,
        ..s
    }
}

/// Effective size of a sub-section, after the fill-overlap rule.
pub open spec fn spec_size(s: SubSection) -> u64 {
    effective_size(s.size, s.fill_size, s.fill_overlaps)
}

/// The fill-contiguity rule: a merged fill should sit at the record's own
/// address or directly after its original footprint.  A record without a
/// merged fill satisfies it trivially; a violation is a diagnosable linker
/// anomaly, never a decode failure.
pub open spec fn spec_fill_contiguous(s: SubSection) -> bool {
    match s.fill_address {
        None => true,
        Some(fa) => fa == s.address || fa as int == s.address as int + s.size as int,
    }
}

/// The sub-section `ss` carries exactly the decoded record `m`.
pub open spec fn sub_matches(ss: SubSection, m: RecSpec) -> bool {
    &&& ss.name@ == m.name
    &&& ss.address == m.address
    &&& ss.size == m.size
    &&& ss.data@ == m.data
    &&& match m.fill {
        None => ss.fill_size == 0 && ss.fill_address is None && !ss.fill_overlaps,
        Some((fa, fs)) => ss.fill_size == fs && ss.fill_address == Some(fa) && ss.fill_overlaps
            == (fa == m.address),
    }
}

impl SubSection {
    /// Creates a sub-section with no fill.
    pub fn new(name: String, address: u64, size: u64) -> (r: SubSection)
        ensures
            r.name == name,
            r.address == address,
            r.size == size,
            r.fill_size == 0,
            r.fill_address is None,
            !r.fill_overlaps,
            r.data@ == Seq::<char>::empty(),
    {
        SubSection {
            name,
            address,
            size,
            fill_size: 0,
            fill_address: None,
            fill_overlaps: false,
            data: String::new(),
        }
    }

    pub fn name(&self) -> (r: &str)
        ensures
            r@ == self.name@,
    {
        self.name.as_str()
    }

    pub fn address(&self) -> (r: u64)
        ensures
            r == self.address,
    {
        self.address
    }

    /// Merges a fill line into the record: the fill size is recorded, and a
    /// fill at the record's own address marks the record as overlapped.
    pub fn set_fill(&mut self, address: u64, size: u64)
        ensures
            *final(self) == spec_set_fill(*old(self), address, size),
    {
        self.fill_size = size;
        self.fill_address = Some(address);
        if self.address == address {
            self.fill_overlaps = true;
        }
    }

    /// Effective size: the fill size alone when the fill overlapped the
    /// record, the sum of original and fill size otherwise.
    pub fn size(&self) -> (r: u64)
        ensures
            r == spec_size(*self),
    {
        if self.fill_overlaps {
            self.fill_size
        } else {
            add_sizes(self.size, self.fill_size)
        }
    }

    pub fn get_name(&self) -> (r: &str)
        ensures
            r@ == self.name@,
    {
        self.name.as_str()
    }

    pub fn get_address(&self) -> (r: u64)
        ensures
            r == self.address,
    {
        self.address
    }

    /// Effective size, under the accessor name used at entry granularity.
    pub fn get_size(&self) -> (r: u64)
        ensures
            r == spec_size(*self),
    {
        self.size()
    }

    /// Whether the merged fill, if any, sits at the record's own address or
    /// directly after its original footprint.
    pub fn fill_contiguous(&self) -> (r: bool)
        ensures
            r == spec_fill_contiguous(*self),
    {
        match self.fill_address {
            None => true,
            Some(fa) => fa == self.address || (self.size <= u64::MAX - self.address && fa
                == self.address + self.size),
        }
    }

    /// Decodes one sub-section span: name from the first line, the info match
    /// on its designated line, and the first following fill line merged.
    pub fn parse(data: &str) -> (r: Result<SubSection, ParserError>)
        ensures
            ({
                let m = spec_decode_subsection(data@);
                match r {
                    Ok(ss) => m is Some && sub_matches(ss, m->0),
                    Err(e) => m is None && e == ParserError::InvalidMemoryMapSubSection,
                }
            }),
    {
        let v = chars_of(data);
        let n = v.len();
        if n == 0 {
            return Err(ParserError::InvalidMemoryMapSubSection);
        }
        proof {
            assert(v@.subrange(0, n as int) =~= v@);
        }
        let lines = split_lines(&v, 0, n);
        let ghost lv = spec_lines(v@);
        proof {
            assert(lv.len() >= 1);
        }
        let (l0lo, l0hi) = lines[0];
        let ghost line0 = lv[0];
        proof {
            assert(line0 == v@.subrange(l0lo as int, l0hi as int));
        }
        if l0hi - l0lo < 2 {
            return Err(ParserError::InvalidMemoryMapSubSection);
        }
        proof {
            assert(line0[0] == v@[l0lo as int]);
            assert(line0[1] == v@[l0lo + 1 as int]);
        }
        if v[l0lo] != ' ' {
            return Err(ParserError::InvalidMemoryMapSubSection);
        }
        if !is_name_char(v[l0lo + 1]) {
            return Err(ParserError::InvalidMemoryMapSubSection);
        }
        let ne = scan_name_end(&v, l0lo + 1, l0hi);
        proof {
            assert(line0.skip(1) =~= v@.subrange(l0lo + 1 as int, l0hi as int));
            assert(line0.subrange(1, 1 + name_run(line0.skip(1)) as int) =~= v@.subrange(
                l0lo + 1 as int,
                ne as int,
            ));
        }
        let two = all_spaces_in(&v, ne, l0hi);
        proof {
            let off = (ne - l0lo) as int;
            let tail = v@.subrange(ne as int, l0hi as int);
            assert(1 + name_run(line0.skip(1)) == off);
            if two {
                assert forall|j: int| off <= j < line0.len() implies crate::lex::is_space_char(
                    #[trigger] line0[j],
                ) by {
                    assert(line0[j] == v@[l0lo + j]);
                    assert(tail[j - off] == v@[l0lo + j]);
                    assert(crate::lex::is_space_char(tail[j - off]));
                }
                assert(name_only_line(line0));
            } else {
                let w = choose|j: int|
                    0 <= j < tail.len() && !crate::lex::is_space_char(#[trigger] tail[j]);
                assert(tail[w] == v@[ne + w]);
                assert(line0[off + w] == v@[ne + w]);
                assert(!name_only_line(line0));
            }
            assert(two == name_only_line(line0));
        }
        let k: usize = if two {
            1
        } else {
            0
        };
        if k >= lines.len() {
            return Err(ParserError::InvalidMemoryMapSubSection);
        }
        let (klo, khi) = lines[k];
        proof {
            assert(lv[k as int] == v@.subrange(klo as int, khi as int));
        }
        match entry_info_in_line(&v, klo, khi) {
            None => Err(ParserError::InvalidMemoryMapSubSection),
            Some((addr, size, _plo, _phi)) => {
                let name_s = String::from_str(data.substring_char(l0lo + 1, ne));
                let mut ss = SubSection::new(name_s, addr, size);
                ss.data = String::from_str(data);
                match find_fill_from(&v, &lines, Ghost(lv), k + 1) {
                    Some((fa, fs)) => {
                        ss.set_fill(fa, fs);
                        Ok(ss)
                    },
                    None => Ok(ss),
                }
            },
        }
    }

    /// Decodes a one-line description `name address size ...` with the name
    /// anchored at the very start.
    pub fn from_str(data: &str) -> (r: Result<SubSection, ParserError>)
        ensures
            ({
                let m = spec_sub_from_str(data@);
                match r {
                    Ok(ss) => {
                        let t = m->0;
                        m is Some && ss.name@ == t.0 && ss.address == t.1 && ss.size == t.2
                            && ss.fill_size == 0 && ss.fill_address is None && !ss.fill_overlaps
                            && ss.data@ == Seq::<char>::empty()
                    },
                    Err(e) => m is None && e == ParserError::InvalidMemoryMapSubSection,
                }
            }),
    {
        let v = chars_of(data);
        let n = v.len();
        if n == 0 {
            return Err(ParserError::InvalidMemoryMapSubSection);
        }
        let e = scan_line_end(&v, 0, n);
        let ghost line0 = spec_lines(v@)[0];
        proof {
            assert(v@.subrange(0, n as int) =~= v@);
            assert(line_len(v@) == e);
            if e < n {
                assert(v@.take(e as int) =~= v@.subrange(0, e as int));
            } else {
                assert(v@ =~= v@.subrange(0, e as int));
            }
            assert(line0 == v@.subrange(0, e as int));
        }
        if e == 0 {
            return Err(ParserError::InvalidMemoryMapSubSection);
        }
        proof {
            assert(line0[0] == v@[0]);
        }
        if crate::lex::space_char(v[0]) {
            return Err(ParserError::InvalidMemoryMapSubSection);
        }
        let ts = tokens_in(&v, 0, e);
        let ghost tsv = spec_tokens(line0);
        if ts.len() < 4 {
            return Err(ParserError::InvalidMemoryMapSubSection);
        }
        proof {
            assert(tsv[0] == v@.subrange(ts@[0].0 as int, ts@[0].1 as int));
            assert(tsv[1] == v@.subrange(ts@[1].0 as int, ts@[1].1 as int));
            assert(tsv[2] == v@.subrange(ts@[2].0 as int, ts@[2].1 as int));
            assert(tsv[3] == v@.subrange(ts@[3].0 as int, ts@[3].1 as int));
        }
        if !all_names_in(&v, ts[0].0, ts[0].1) {
            return Err(ParserError::InvalidMemoryMapSubSection);
        }
        let (plo, phi) = ts[3];
        if plo >= phi {
            return Err(ParserError::InvalidMemoryMapSubSection);
        }
        proof {
            assert(tsv[3][0] == v@[plo as int]);
        }
        if !is_name_char(v[plo]) {
            return Err(ParserError::InvalidMemoryMapSubSection);
        }
        let a = hex_token_value(&v, ts[1].0, ts[1].1);
        let s = hex_token_value(&v, ts[2].0, ts[2].1);
        match (a, s) {
            (Some(av), Some(sv)) => {
                let name_s = String::from_str(data.substring_char(ts[0].0, ts[0].1));
                Ok(SubSection::new(name_s, av, sv))
            },
            _ => Err(ParserError::InvalidMemoryMapSubSection),
        }
    }
}

} // verus!
