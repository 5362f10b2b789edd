//! The document driver: top-level section classification, the block splitter,
//! segment assembly, and the parser that turns one map document into segments
//! and object rollups.

use vstd::prelude::*;
use vstd::string::{StrSliceExecFns, StringExecFns};

use crate::entry::Entry;
use crate::grammar::{
    blank_text, entry_info_in_line, fill_marker_vec, fill_mask_marker_vec, find_entry_info_from,
    find_fill_from, find_hex_pair_from, is_start_char, load_marker_vec, prov_of_token,
    sort_split_marker_vec, spec_decode_record, spec_decode_segment_info, spec_entry_start,
    spec_noise_line, spec_rec_name, name_only_line, spec_find_entry_info, spec_find_fill,
    spec_find_hex_pair, spec_blank_text, spec_head_name, load_marker, HeadSpec, RecSpec,
};
use crate::lex::{
    all_spaces_in, chars_of, chunks_in, contains_range, is_name_char, line_len, name_run,
    option_view, ranges_match, scan_line_end, scan_name_end, spec_chunks, spec_contains,
    spec_lines, spec_starts_with, split_lines, starts_with_range,
};
use crate::object::Object;
use crate::segment::Segment;

verus! {

/// The named top-level sections of a map document.
#[derive(Debug, PartialEq, Eq, Hash, Clone, Copy, Structural)]
pub enum Section {
    /// The 'Archive member included to satisfy reference by file (symbol)' section.
    ArchiveMembers,
    /// The 'Allocating common symbols' section.
    CommonSymbols,
    /// The 'Discarded input sections' section.
    DiscardedInput,
    /// The 'Memory Configuration' section.
    MemoryConfiguration,
    /// The 'Linker script and memory map' section.
    MemoryMap,
}

/// The section whose title the line begins with, if any.
pub open spec fn spec_classify(line: Seq<char>) -> Option<Section> {
    if spec_starts_with(line, "Archive member included"@) {
        Some(Section::ArchiveMembers)
    } else if spec_starts_with(line, "Allocating common symbols"@) {
        Some(Section::CommonSymbols)
    } else if spec_starts_with(line, "Discarded input sections"@) {
        Some(Section::DiscardedInput)
    } else if spec_starts_with(line, "Memory Configuration"@) {
        Some(Section::MemoryConfiguration)
    } else if spec_starts_with(line, "Linker script and memory map"@) {
        Some(Section::MemoryMap)
    } else {
        None
    }
}

/// The record `e` carries exactly the decoded record `m`.
pub open spec fn rec_matches(e: Entry, m: RecSpec) -> bool {
    &&& e.name@ == m.name
    &&& e.address == m.address
    &&& e.size == m.size
    &&& e.data@ == m.data
    &&& option_view(e.object_name) == m.object
    &&& option_view(e.library_name) == m.library
    &&& match m.fill {
        None => e.fill_size == 0 && e.fill_address is None && !e.fill_overlaps,
        Some((fa, fs)) => e.fill_size == fs && e.fill_address == Some(fa) && e.fill_overlaps == (fa
            == m.address),
    }
}

/// The segment `seg` carries the decoded header `h` in its name, address and
/// size fields.
pub open spec fn head_fields(seg: Segment, h: HeadSpec) -> bool {
    &&& seg.name@ == h.name
    &&& match h.pair {
        None => seg.address is None && seg.size is None,
        Some((a, s)) => seg.address == Some(a) && seg.size == Some(s),
    }
}

/// The segment `seg` carries exactly the decoded header `h` and no records.
pub open spec fn head_matches(seg: Segment, h: HeadSpec) -> bool {
    head_fields(seg, h) && seg.entries@.len() == 0
}

/// Parsing results for one document: the memory-map segments in source order,
/// and the per-object rollups in first-seen order.
pub struct Parser {
    /// Decoded memory-map segments, in source order.
    pub memory_map_segments: Vec<Segment>,
    /// Object rollups, keyed by object name, in first-seen order.
    pub memory_map_objects: Vec<Object>,
}

impl Parser {
    /// Creates an empty parser.
    pub fn new() -> (r: Parser)
        ensures
            r.memory_map_segments@ == Seq::<Segment>::empty(),
            r.memory_map_objects@ == Seq::<Object>::empty(),
    {
        Parser { memory_map_segments: Vec::new(), memory_map_objects: Vec::new() }
    }

    /// Drops all stored segments and rollups.
    pub fn clear(&mut self)
        ensures
            final(self).memory_map_segments@ == Seq::<Segment>::empty(),
            final(self).memory_map_objects@ == Seq::<Object>::empty(),
    {
        self.memory_map_objects.clear();
        self.memory_map_segments.clear();
    }

    /// All stored segments.
    pub fn get_memory_map_segments(&self) -> (r: &[Segment])
        ensures
            r@ == self.memory_map_segments@,
    {
        self.memory_map_segments.as_slice()
    }

    /// All stored object rollups.
    pub fn get_memory_map_objects(&self) -> (r: &Vec<Object>)
        ensures
            r@ == self.memory_map_objects@,
    {
        &self.memory_map_objects
    }

    /// Classifies a line as a top-level section title.
    pub fn parse_section(line: &str) -> (r: Option<Section>)
        ensures
            r == spec_classify(line@),
    {
        let v = chars_of(line);
        let n = v.len();
        proof {
            assert(v@.subrange(0, n as int) =~= v@);
        }
        let t = chars_of("Archive member included");
        if starts_with_range(&v, 0, n, &t) {
            return Some(Section::ArchiveMembers);
        }
        let t = chars_of("Allocating common symbols");
        if starts_with_range(&v, 0, n, &t) {
            return Some(Section::CommonSymbols);
        }
        let t = chars_of("Discarded input sections");
        if starts_with_range(&v, 0, n, &t) {
            return Some(Section::DiscardedInput);
        }
        let t = chars_of("Memory Configuration");
        if starts_with_range(&v, 0, n, &t) {
            return Some(Section::MemoryConfiguration);
        }
        let t = chars_of("Linker script and memory map");
        if starts_with_range(&v, 0, n, &t) {
            return Some(Section::MemoryMap);
        }
        None
    }

    /// Decodes one record span: the name from the first line, the first
    /// address/size/provenance match scanning from the name's line (or the
    /// next, when the first line holds only the name), then the first fill
    /// line after it.
    #[verifier::rlimit(50)]
    pub fn parse_entry_info(data: &str) -> (r: Option<Entry>)
        ensures
            ({
                let m = spec_decode_record(data@);
                match r {
                    None => m is None,
                    Some(e) => m is Some && rec_matches(e, m->0),
                }
            }),
    {
        let v = chars_of(data);
        let n = v.len();
        if n == 0 {
            return None;
        }
        proof {
            assert(v@.subrange(0, n as int) =~= v@);
        }
        let lines = split_lines(&v, 0, n);
        let ghost lv = spec_lines(v@);
        proof {
            assert(lv.len() >= 1);
        }
        let (l0lo, l0hi) = lines[0];
        let ghost line0 = lv[0];
        proof {
            assert(line0 == v@.subrange(l0lo as int, l0hi as int));
        }
        if l0hi - l0lo < 2 {
            return None;
        }
        proof {
            assert(line0[0] == v@[l0lo as int]);
            assert(line0[1] == v@[l0lo + 1 as int]);
        }
        if v[l0lo] != ' ' {
            return None;
        }
        if !is_name_char(v[l0lo + 1]) {
            return None;
        }
        let ne = scan_name_end(&v, l0lo + 1, l0hi);
        proof {
            assert(line0.skip(1) =~= v@.subrange(l0lo + 1 as int, l0hi as int));
            assert(line0.subrange(1, 1 + name_run(line0.skip(1)) as int) =~= v@.subrange(
                l0lo + 1 as int,
                ne as int,
            ));
        }
        let two = all_spaces_in(&v, ne, l0hi);
        proof {
            let off = (ne - l0lo) as int;
            let tail = v@.subrange(ne as int, l0hi as int);
            assert(1 + name_run(line0.skip(1)) == off);
            if two {
                assert forall|j: int| off <= j < line0.len() implies crate::lex::is_space_char(
                    #[trigger] line0[j],
                ) by {
                    assert(line0[j] == v@[l0lo + j]);
                    assert(tail[j - off] == v@[l0lo + j]);
                    assert(crate::lex::is_space_char(tail[j - off]));
                }
                assert(name_only_line(line0));
            } else {
                let w = choose|j: int|
                    0 <= j < tail.len() && !crate::lex::is_space_char(#[trigger] tail[j]);
                assert(tail[w] == v@[ne + w]);
                assert(line0[off + w] == v@[ne + w]);
                assert(!name_only_line(line0));
            }
            assert(two == name_only_line(line0));
        }
        let start: usize = if two {
            1
        } else {
            0
        };
        let nl = lines.len();
        match find_entry_info_from(&v, &lines, Ghost(lv), start) {
            None => None,
            Some((k, addr, size, plo, phi)) => {
                proof {
                    assert(k < nl);
                }
                let name_str = data.substring_char(l0lo + 1, ne);
                let mut entry = Entry::new(name_str, addr, size, data);
                let (lib, obj) = prov_of_token(data, &v, plo, phi);
                entry.set_object_name(obj.as_str());
                match lib {
                    Some(l) => entry.set_library_name(l.as_str()),
                    None => {},
                }
                match find_fill_from(&v, &lines, Ghost(lv), k + 1) {
                    Some((fa, fs)) => entry.set_fill(fa, fs),
                    None => {},
                }
                Some(entry)
            },
        }
    }

    /// Decodes one segment header span: a name anchored at the start of the
    /// first line, no linker directive marker there, and the first
    /// hexadecimal address/size pair found on the span's lines, if any.
    pub fn parse_segment_info(data: &str) -> (r: Option<Segment>)
        ensures
            ({
                let m = spec_decode_segment_info(data@);
                match r {
                    None => m is None,
                    Some(seg) => m is Some && head_matches(seg, m->0),
                }
            }),
    {
        let v = chars_of(data);
        if blank_text(&v) {
            return None;
        }
        let n = v.len();
        proof {
            if v@.len() == 0 {
                assert(spec_blank_text(v@));
            }
            assert(v@.subrange(0, n as int) =~= v@);
        }
        let lines = split_lines(&v, 0, n);
        let ghost lv = spec_lines(v@);
        proof {
            assert(lv.len() >= 1);
        }
        let (l0lo, l0hi) = lines[0];
        let ghost line0 = lv[0];
        proof {
            assert(line0 == v@.subrange(l0lo as int, l0hi as int));
        }
        let loadv = load_marker_vec();
        if contains_range(&v, l0lo, l0hi, &loadv) {
            return None;
        }
        if l0hi == l0lo {
            return None;
        }
        proof {
            assert(line0[0] == v@[l0lo as int]);
        }
        if !is_name_char(v[l0lo]) {
            return None;
        }
        let ne = scan_name_end(&v, l0lo, l0hi);
        proof {
            assert(line0.take(name_run(line0) as int) =~= v@.subrange(l0lo as int, ne as int));
        }
        let name_str = data.substring_char(l0lo, ne);
        let mut seg = Segment::new(name_str);
        match find_hex_pair_from(&v, &lines, Ghost(lv), 0) {
            Some((a, s)) => {
                seg.set_size_and_address(s, a);
                Some(seg)
            },
            None => Some(seg),
        }
    }
}

/// Remainder of the block split: scanning the text `s` whose first character
/// sits at offset `pos` of the span, `start` being the offset where the
/// current range began.  Every record-start line closes the current range and
/// opens a new one; noise lines never do; one final catch-all range is always
/// emitted.  Each line advances the offset by its length plus one.
pub open spec fn spec_split_rec(s: Seq<char>, pos: int, start: int) -> Seq<(int, int)>
    decreases s.len(),
{
    if s.len() == 0 {
        seq![(start, pos - 1)]
    } else {
        let k = line_len(s) as int;
        if 0 <= k && k <= s.len() {
            let line = s.take(k);
            let rest = if k == s.len() {
                Seq::<char>::empty()
            } else {
                s.skip(k + 1)
            };
            if spec_noise_line(line) {
                spec_split_rec(rest, pos + k + 1, start)
            } else if spec_entry_start(line) {
                seq![(start, pos - 1)] + spec_split_rec(rest, pos + k + 1, pos)
            } else {
                spec_split_rec(rest, pos + k + 1, start)
            }
        } else {
            seq![(start, pos - 1)]
        }
    }
}

/// Ranges of the block splitter over one span: the first is always the
/// header, each later one is one record.
pub open spec fn spec_split_segment(s: Seq<char>) -> Seq<(int, int)> {
    spec_split_rec(s, 0, 0)
}

/// The span's very first line must not itself start a record: there would be
/// no header range before it.
pub open spec fn split_head_ok(s: Seq<char>) -> bool {
    ||| spec_noise_line(s.take(line_len(s) as int))
    ||| !spec_entry_start(s.take(line_len(s) as int))
}

/// The ranges as pairs of mathematical integers.
pub open spec fn range_views(rs: Seq<(usize, usize)>) -> Seq<(int, int)> {
    rs.map_values(|p: (usize, usize)| (p.0 as int, p.1 as int))
}

impl Parser {
    /// Splits one span into the header range followed by one range per
    /// record.  Range ends exclude the line's trailing newline.
    #[verifier::rlimit(50)]
    pub fn split_segment(data: &str) -> (r: Vec<(usize, usize)>)
        requires
            data@.len() >= 1,
            split_head_ok(data@),
        ensures
            range_views(r@) == spec_split_segment(data@),
            r@.len() >= 1,
            forall|m: int| 0 <= m < r@.len() ==> (#[trigger] r@[m]).0 <= r@[m].1 <= data@.len(),
    {
        let v = chars_of(data);
        let n = v.len();
        let sortv = sort_split_marker_vec();
        let fillv = fill_marker_vec();
        let maskv = fill_mask_marker_vec();
        let mut r: Vec<(usize, usize)> = Vec::new();
        let mut cur: usize = 0;
        let mut start: usize = 0;
        let ghost mut pos: int = 0;
        proof {
            assert(v@.skip(0) =~= v@);
            assert(range_views(r@) =~= Seq::<(int, int)>::empty());
            assert(spec_split_segment(data@) =~= range_views(r@) + spec_split_rec(
                v@.skip(0),
                0,
                0,
            ));
        }
        while cur < n
            invariant
                v@ == data@,
                n == v@.len(),
                1 <= n,
                cur <= n,
                start <= cur,
                cur < n ==> pos == cur as int,
                cur == n ==> pos == n as int || pos == n + 1,
                cur == n && pos == n as int ==> v@[n - 1] == '\n',
                cur == n && pos == n + 1 ==> v@[n - 1] != '\n',
                cur == 0 ==> start == 0 && pos == 0,
                cur > 0 ==> (start as int) < pos,
                split_head_ok(data@),
                spec_split_segment(data@) == range_views(r@) + spec_split_rec(
                    v@.skip(cur as int),
                    pos,
                    start as int,
                ),
                forall|m: int| 0 <= m < r@.len() ==> (#[trigger] r@[m]).0 <= r@[m].1 && r@[m].1 < n,
                sortv@ == crate::grammar::sort_split_marker(),
                fillv@ == crate::grammar::fill_marker(),
                maskv@ == crate::grammar::fill_mask_marker(),
            decreases n - cur,
        {
            let ghost start0 = start as int;
            let ghost pos0 = pos;
            let e = scan_line_end(&v, cur, n);
            let ghost srem = v@.skip(cur as int);
            let ghost line = v@.subrange(cur as int, e as int);
            proof {
                assert(srem =~= v@.subrange(cur as int, n as int));
                assert(line_len(srem) == e - cur);
                assert(srem.take((e - cur) as int) =~= line);
            }
            let noise = contains_range(&v, cur, e, &sortv) || e == cur || starts_with_range(
                &v,
                cur,
                e,
                &fillv,
            ) || starts_with_range(&v, cur, e, &maskv);
            proof {
                assert(noise == spec_noise_line(line));
            }
            let mut starts = false;
            if !noise {
                if e - cur >= 2 {
                    if v[cur] == ' ' {
                        if is_start_char(v[cur + 1]) {
                            starts = true;
                        }
                    }
                }
                proof {
                    if line.len() >= 2 {
                        assert(line[0] == v@[cur as int]);
                        assert(line[1] == v@[cur + 1 as int]);
                    }
                    assert(starts == spec_entry_start(line));
                }
            }
            if !noise && starts {
                proof {
                    if cur == 0 {
                        assert(v@.skip(0) =~= v@);
                        assert(line_len(data@) == e);
                        assert(data@.take(line_len(data@) as int) =~= line);
                        assert(false);
                    }
                }
                let ghost r0 = r@;
                r.push((start, cur - 1));
                proof {
                    assert(range_views(r@) =~= range_views(r0) + seq![
                        (start0, cur - 1 as int),
                    ]);
                }
                start = cur;
            }
            proof {
                let k = (e - cur) as int;
                let pos2 = pos0 + k + 1;
                let rest: Seq<char> = if e == n {
                    Seq::<char>::empty()
                } else {
                    srem.skip(k + 1)
                };
                if e < n {
                    assert(rest =~= v@.skip(e + 1 as int));
                } else {
                    assert(v@.skip(n as int) =~= Seq::<char>::empty());
                }
                if noise {
                    assert(spec_split_rec(srem, pos0, start0) == spec_split_rec(
                        rest,
                        pos2,
                        start0,
                    ));
                } else if starts {
                    assert(spec_split_rec(srem, pos0, start0) == seq![(start0, pos0 - 1)]
                        + spec_split_rec(rest, pos2, pos0));
                    assert(spec_split_segment(data@) =~= range_views(r@) + spec_split_rec(
                        rest,
                        pos2,
                        pos0,
                    ));
                } else {
                    assert(spec_split_rec(srem, pos0, start0) == spec_split_rec(
                        rest,
                        pos2,
                        start0,
                    ));
                }
                pos = pos2;
            }
            if e == n {
                cur = n;
            } else {
                cur = e + 1;
            }
        }
        proof {
            assert(v@.skip(n as int) =~= Seq::<char>::empty());
        }
        let last = if v[n - 1] == '\n' {
            n - 1
        } else {
            n
        };
        proof {
            assert(last as int == pos - 1);
        }
        let ghost r0 = r@;
        r.push((start, last));
        proof {
            assert(range_views(r@) =~= range_views(r0) + seq![(start as int, last as int)]);
            assert(range_views(r@) =~= spec_split_segment(data@));
        }
        r
    }
}

/// A decoded segment: its header and its records.
pub struct SegSpec {
    pub head: HeadSpec,
    pub recs: Seq<RecSpec>,
}

/// The records decoded from the ranges `rs[i..]` of `s`; `None` as soon as
/// any one range fails to decode.
pub open spec fn spec_decode_records(s: Seq<char>, rs: Seq<(int, int)>, i: int) -> Option<
    Seq<RecSpec>,
>
    decreases rs.len() - i,
{
    if i < 0 || i >= rs.len() {
        Some(Seq::empty())
    } else {
        match spec_decode_record(s.subrange(rs[i].0, rs[i].1)) {
            None => None,
            Some(rec) => match spec_decode_records(s, rs, i + 1) {
                None => None,
                Some(t) => Some(seq![rec] + t),
            },
        }
    }
}

/// Decoding one whole segment span: split it, decode the header from the
/// first range, then decode every record range; one failed record fails the
/// whole span.
pub open spec fn spec_parse_segment(s: Seq<char>) -> Option<SegSpec> {
    if s.len() == 0 || !split_head_ok(s) {
        None
    } else {
        let rs = spec_split_segment(s);
        match spec_decode_segment_info(s.subrange(rs[0].0, rs[0].1)) {
            None => None,
            Some(head) => match spec_decode_records(s, rs, 1) {
                None => None,
                Some(recs) => Some(SegSpec { head, recs }),
            },
        }
    }
}

/// The segment `seg` carries exactly the decoded segment `m`.
pub open spec fn seg_matches(seg: Segment, m: SegSpec) -> bool {
    &&& head_fields(seg, m.head)
    &&& seg.entries@.len() == m.recs.len()
    &&& forall|i: int| 0 <= i < m.recs.len() ==> rec_matches(#[trigger] seg.entries@[i], m.recs[i])
}

proof fn lemma_decode_records_all(s: Seq<char>, rs: Seq<(int, int)>, i: int)
    requires
        0 <= i <= rs.len(),
        forall|j: int|
            i <= j < rs.len() ==> spec_decode_record(
                s.subrange((#[trigger] rs[j]).0, rs[j].1),
            ) is Some,
    ensures
        spec_decode_records(s, rs, i) is Some,
        (spec_decode_records(s, rs, i)->0).len() == rs.len() - i,
        forall|j: int|
            i <= j < rs.len() ==> (spec_decode_records(s, rs, i)->0)[j - i] == spec_decode_record(
                s.subrange((#[trigger] rs[j]).0, rs[j].1),
            )->0,
    decreases rs.len() - i,
{
    if i < rs.len() {
        lemma_decode_records_all(s, rs, i + 1);
    }
}

proof fn lemma_decode_records_fail(s: Seq<char>, rs: Seq<(int, int)>, i: int, f: int)
    requires
        0 <= i <= f < rs.len(),
        spec_decode_record(s.subrange(rs[f].0, rs[f].1)) is None,
    ensures
        spec_decode_records(s, rs, i) is None,
    decreases f - i,
{
    if i < f {
        lemma_decode_records_fail(s, rs, i + 1, f);
    }
}

impl Parser {
    /// Decodes one whole segment span: header plus all its records; any record
    /// that fails to decode fails the span, and a span whose very first line
    /// already starts a record has no header and fails as well.
    #[verifier::rlimit(100)]
    #[verifier::spinoff_prover]
    pub fn parse_segment(data: &str) -> (r: Option<Segment>)
        ensures
            ({
                let m = spec_parse_segment(data@);
                match r {
                    None => m is None,
                    Some(seg) => m is Some && seg_matches(seg, m->0),
                }
            }),
    {
        let v = chars_of(data);
        let n = v.len();
        if n == 0 {
            return None;
        }
        proof {
            assert(v@.subrange(0, n as int) =~= v@);
        }
        let e0 = scan_line_end(&v, 0, n);
        let ghost line0 = v@.subrange(0, e0 as int);
        proof {
            assert(line_len(v@) == e0);
            assert(data@.take(line_len(data@) as int) =~= line0);
        }
        let sortv = sort_split_marker_vec();
        let fillv = fill_marker_vec();
        let maskv = fill_mask_marker_vec();
        let noise0 = contains_range(&v, 0, e0, &sortv) || e0 == 0 || starts_with_range(
            &v,
            0,
            e0,
            &fillv,
        ) || starts_with_range(&v, 0, e0, &maskv);
        proof {
            assert(noise0 == spec_noise_line(line0));
        }
        let mut starts0 = false;
        if !noise0 {
            if e0 >= 2 {
                if v[0] == ' ' {
                    if is_start_char(v[1]) {
                        starts0 = true;
                    }
                }
            }
            proof {
                if line0.len() >= 2 {
                    assert(line0[0] == v@[0]);
                    assert(line0[1] == v@[1]);
                }
                assert(starts0 == spec_entry_start(line0));
            }
        }
        if !noise0 && starts0 {
            proof {
                assert(!split_head_ok(data@));
            }
            return None;
        }
        proof {
            assert(split_head_ok(data@));
        }
        let ranges = Parser::split_segment(data);
        let ghost rsv = spec_split_segment(data@);
        let (h0, h1) = ranges[0];
        proof {
            assert(range_views(ranges@)[0] == rsv[0]);
        }
        let head_str = data.substring_char(h0, h1);
        let mut seg = match Parser::parse_segment_info(head_str) {
            None => {
                return None;
            },
            Some(sg) => sg,
        };
        let m = ranges.len();
        let mut i: usize = 1;
        while i < m
            invariant
                v@ == data@,
                m == ranges@.len(),
                1 <= i <= m,
                rsv == spec_split_segment(data@),
                range_views(ranges@) == rsv,
                forall|k: int|
                    0 <= k < m ==> (#[trigger] ranges@[k]).0 <= ranges@[k].1 <= data@.len(),
                spec_decode_segment_info(data@.subrange(rsv[0].0, rsv[0].1)) is Some,
                head_fields(seg, spec_decode_segment_info(data@.subrange(rsv[0].0, rsv[0].1))->0),
                seg.entries@.len() == i - 1,
                forall|j: int|
                    1 <= j < i ==> spec_decode_record(
                        data@.subrange((#[trigger] rsv[j]).0, rsv[j].1),
                    ) is Some && rec_matches(
                        seg.entries@[j - 1],
                        spec_decode_record(data@.subrange(rsv[j].0, rsv[j].1))->0,
                    ),
            decreases m - i,
        {
            let (a, b) = ranges[i];
            proof {
                assert(range_views(ranges@)[i as int] == rsv[i as int]);
            }
            let rec_str = data.substring_char(a, b);
            match Parser::parse_entry_info(rec_str) {
                None => {
                    proof {
                        lemma_decode_records_fail(data@, rsv, 1, i as int);
                    }
                    return None;
                },
                Some(en) => {
                    seg.add_entry(en);
                },
            }
            i = i + 1;
        }
        proof {
            if rsv.len() > 1 {
                lemma_decode_records_all(data@, rsv, 1);
            } else {
                assert(spec_decode_records(data@, rsv, 1) == Some(Seq::<RecSpec>::empty()));
            }
            let recs = spec_decode_records(data@, rsv, 1)->0;
            assert(recs.len() == rsv.len() - 1);
            assert forall|j: int| 0 <= j < recs.len() implies rec_matches(
                #[trigger] seg.entries@[j],
                recs[j],
            ) by {
                assert(recs[j] == spec_decode_record(
                    data@.subrange(rsv[j + 1].0, rsv[j + 1].1),
                )->0);
                assert(rec_matches(
                    seg.entries@[j],
                    spec_decode_record(data@.subrange(rsv[j + 1].0, rsv[j + 1].1))->0,
                ));
            }
            assert(spec_parse_segment(data@) is Some);
            assert(seg_matches(seg, spec_parse_segment(data@)->0));
        }
        Some(seg)
    }
}

/// The rollup state as mathematical values: an object name and its
/// per-segment accumulated sizes.
pub struct ObjSpec {
    pub name: Seq<char>,
    pub sizes: Seq<(Seq<char>, u64)>,
}

/// Index of the first pair with key `key`, or `-1`.
pub open spec fn sizes_index(m: Seq<(Seq<char>, u64)>, key: Seq<char>) -> int
    decreases m.len(),
{
    if m.len() == 0 {
        -1
    } else if m[0].0 == key {
        0
    } else {
        let r = sizes_index(m.drop_first(), key);
        if r < 0 {
            -1
        } else {
            r + 1
        }
    }
}

/// Index of the first rollup for object `name`, or `-1`.
pub open spec fn objs_index(objs: Seq<ObjSpec>, name: Seq<char>) -> int
    decreases objs.len(),
{
    if objs.len() == 0 {
        -1
    } else if objs[0].name == name {
        0
    } else {
        let r = objs_index(objs.drop_first(), name);
        if r < 0 {
            -1
        } else {
            r + 1
        }
    }
}

/// Accumulating `x` under `key`: an existing key's value grows by `x`, a new
/// key is appended with `x`.
pub open spec fn spec_update_sizes(m: Seq<(Seq<char>, u64)>, key: Seq<char>, x: u64) -> Seq<
    (Seq<char>, u64),
> {
    let i = sizes_index(m, key);
    if i >= 0 {
        m.update(i, (m[i].0, crate::fill::sat_add(m[i].1, x)))
    } else {
        m.push((key, x))
    }
}

/// Rolling one record into the rollups: a record without an object name
/// contributes nothing; otherwise its effective size is accumulated under its
/// object, keyed by the segment name `seg`.
pub open spec fn spec_rollup_entry(objs: Seq<ObjSpec>, seg: Seq<char>, e: Entry) -> Seq<ObjSpec> {
    match option_view(e.object_name) {
        None => objs,
        Some(nm) => {
            let i = objs_index(objs, nm);
            if i >= 0 {
                objs.update(
                    i,
                    ObjSpec {
                        name: objs[i].name,
                        sizes: spec_update_sizes(objs[i].sizes, seg, crate::entry::spec_size(e)),
                    },
                )
            } else {
                objs.push(ObjSpec { name: nm, sizes: seq![(seg, crate::entry::spec_size(e))] })
            }
        },
    }
}

/// All records of `entries[i..]` rolled in, in order.
pub open spec fn spec_rollup_entries(
    objs: Seq<ObjSpec>,
    seg: Seq<char>,
    entries: Seq<Entry>,
    i: int,
) -> Seq<ObjSpec>
    decreases entries.len() - i,
{
    if i < 0 || i >= entries.len() {
        objs
    } else {
        spec_rollup_entries(spec_rollup_entry(objs, seg, entries[i]), seg, entries, i + 1)
    }
}

/// Adding one segment: all its records rolled in under the segment's name.
pub open spec fn spec_add_segment(objs: Seq<ObjSpec>, seg: Segment) -> Seq<ObjSpec> {
    spec_rollup_entries(objs, seg.name@, seg.entries@, 0)
}

/// The rollups produced by adding the segments `segs[i..]` in order.
pub open spec fn spec_rollup_segments(objs: Seq<ObjSpec>, segs: Seq<Segment>, i: int) -> Seq<
    ObjSpec,
>
    decreases segs.len() - i,
{
    if i < 0 || i >= segs.len() {
        objs
    } else {
        spec_rollup_segments(spec_add_segment(objs, segs[i]), segs, i + 1)
    }
}

/// The mathematical view of one stored rollup.
pub open spec fn obj_model(o: Object) -> ObjSpec {
    ObjSpec { name: o.name@, sizes: o.segment_size@.map_values(|p: (String, u64)| (p.0@, p.1)) }
}

/// The mathematical view of the stored rollup list.
pub open spec fn objs_model(v: Seq<Object>) -> Seq<ObjSpec> {
    v.map_values(|o: Object| obj_model(o))
}

proof fn lemma_sizes_index_model(m: Seq<(String, u64)>, key: Seq<char>)
    ensures
        crate::object::key_index(m, key) == sizes_index(
            m.map_values(|p: (String, u64)| (p.0@, p.1)),
            key,
        ),
    decreases m.len(),
{
    let mv = m.map_values(|p: (String, u64)| (p.0@, p.1));
    if m.len() == 0 {
    } else {
        lemma_sizes_index_model(m.drop_first(), key);
        assert(m.drop_first().map_values(|p: (String, u64)| (p.0@, p.1)) =~= mv.drop_first());
        assert(mv[0] == (m[0].0@, m[0].1));
    }
}

proof fn lemma_objs_index_at(objs: Seq<ObjSpec>, name: Seq<char>, k: int)
    requires
        0 <= k <= objs.len(),
        forall|j: int| 0 <= j < k ==> (#[trigger] objs[j]).name != name,
        k == objs.len() || objs[k].name == name,
    ensures
        objs_index(objs, name) == if k == objs.len() {
            -1int
        } else {
            k
        },
    decreases k,
{
    if k == 0 {
        if objs.len() > 0 && objs[0].name != name {
            lemma_objs_index_none(objs, name);
        }
    } else {
        lemma_objs_index_at(objs.drop_first(), name, k - 1);
    }
}

proof fn lemma_objs_index_none(objs: Seq<ObjSpec>, name: Seq<char>)
    requires
        forall|j: int| 0 <= j < objs.len() ==> (#[trigger] objs[j]).name != name,
    ensures
        objs_index(objs, name) == -1,
    decreases objs.len(),
{
    if objs.len() > 0 {
        assert forall|j: int|
            0 <= j < objs.drop_first().len() implies (#[trigger] objs.drop_first()[j]).name
            != name by {
            assert(objs.drop_first()[j] == objs[j + 1]);
        }
        lemma_objs_index_none(objs.drop_first(), name);
    }
}

/// Finds the rollup for `name` in the stored list.
fn find_object_in(objs: &Vec<Object>, name: &str) -> (r: Option<usize>)
    ensures
        ({
            let ix = objs_index(objs_model(objs@), name@);
            match r {
                None => ix == -1,
                Some(k) => k < objs@.len() && ix == k,
            }
        }),
{
    let ghost model = objs_model(objs@);
    let n = objs.len();
    let mut j: usize = 0;
    while j < n
        invariant
            j <= n == objs@.len(),
            model == objs_model(objs@),
            forall|k: int| 0 <= k < j ==> (#[trigger] model[k]).name != name@,
        decreases n - j,
    {
        proof {
            assert(model[j as int] == obj_model(objs@[j as int]));
        }
        if crate::lex::str_eq(objs[j].get_name(), name) {
            proof {
                lemma_objs_index_at(model, name@, j as int);
            }
            return Some(j);
        }
        j = j + 1;
    }
    proof {
        lemma_objs_index_at(model, name@, n as int);
    }
    None
}

impl Parser {
    /// Adds a decoded segment: every record that names an object contributes
    /// its effective size to that object's rollup under this segment's name,
    /// then the segment is stored.
    #[verifier::rlimit(100)]
    pub fn add_segment(&mut self, segment: Segment)
        ensures
            final(self).memory_map_segments@ == old(self).memory_map_segments@.push(segment),
            objs_model(final(self).memory_map_objects@) == spec_add_segment(
                objs_model(old(self).memory_map_objects@),
                segment,
            ),
    {
        let n = segment.entries.len();
        let mut i: usize = 0;
        while i < n
            invariant
                n == segment.entries@.len(),
                i <= n,
                self.memory_map_segments@ == old(self).memory_map_segments@,
                spec_add_segment(objs_model(old(self).memory_map_objects@), segment)
                    == spec_rollup_entries(
                    objs_model(self.memory_map_objects@),
                    segment.name@,
                    segment.entries@,
                    i as int,
                ),
            decreases n - i,
        {
            let ghost model0 = objs_model(self.memory_map_objects@);
            let ghost e_spec = segment.entries@[i as int];
            let e = &segment.entries[i];
            match e.get_object_name() {
                None => {
                    proof {
                        assert(spec_rollup_entry(model0, segment.name@, e_spec) == model0);
                    }
                },
                Some(obj_name) => {
                    let size = e.get_size();
                    match find_object_in(&self.memory_map_objects, obj_name) {
                        None => {
                            let mut o = Object::new(obj_name);
                            o.update_segment_size(segment.get_name(), size);
                            proof {
                                assert(o.segment_size@.map_values(
                                    |p: (String, u64)| (p.0@, p.1),
                                ) =~= seq![(segment.name@, crate::entry::spec_size(e_spec))]);
                            }
                            self.memory_map_objects.push(o);
                            proof {
                                assert(objs_model(self.memory_map_objects@) =~= model0.push(
                                    obj_model(o),
                                ));
                                assert(obj_model(o) == ObjSpec {
                                    name: obj_name@,
                                    sizes: seq![(segment.name@, crate::entry::spec_size(e_spec))],
                                });
                                assert(objs_model(self.memory_map_objects@) == spec_rollup_entry(
                                    model0,
                                    segment.name@,
                                    e_spec,
                                ));
                            }
                        },
                        Some(ix) => {
                            let ghost old_objs = self.memory_map_objects@;
                            let mut o = self.memory_map_objects.remove(ix);
                            let ghost osizes = o.segment_size@;
                            proof {
                                assert(old_objs[ix as int] == o);
                                lemma_sizes_index_model(osizes, segment.name@);
                            }
                            o.update_segment_size(segment.get_name(), size);
                            proof {
                                let sz = crate::entry::spec_size(e_spec);
                                assert(size == sz);
                                let mv = osizes.map_values(|p: (String, u64)| (p.0@, p.1));
                                let ki = crate::object::key_index(osizes, segment.name@);
                                crate::object::lemma_key_index_props(osizes, segment.name@);
                                let newv = o.segment_size@;
                                let newm = newv.map_values(|p: (String, u64)| (p.0@, p.1));
                                let target = spec_update_sizes(mv, segment.name@, sz);
                                if ki >= 0 {
                                    assert(newv == osizes.update(
                                        ki,
                                        (osizes[ki].0, crate::fill::sat_add(osizes[ki].1, sz)),
                                    ));
                                    assert forall|j: int| 0 <= j < newm.len() implies newm[j]
                                        == target[j] by {
                                        assert(newm[j] == (newv[j].0@, newv[j].1));
                                        assert(mv[j] == (osizes[j].0@, osizes[j].1));
                                        if j == ki {
                                            assert(newv[j] == (osizes[ki].0, crate::fill::sat_add(
                                                osizes[ki].1,
                                                sz,
                                            )));
                                        } else {
                                            assert(newv[j] == osizes[j]);
                                        }
                                    }
                                    assert(newm =~= target);
                                } else {
                                    assert(target == mv.push((segment.name@, sz)));
                                    assert(newv.len() == osizes.len() + 1);
                                    assert forall|j: int| 0 <= j < newm.len() implies newm[j]
                                        == target[j] by {
                                        assert(newm[j] == (newv[j].0@, newv[j].1));
                                        if j < osizes.len() {
                                            assert(newv.take(osizes.len() as int)[j] == newv[j]);
                                            assert(newv[j] == osizes[j]);
                                            assert(mv[j] == (osizes[j].0@, osizes[j].1));
                                        } else {
                                            assert(newv[j] == newv.last());
                                        }
                                    }
                                    assert(newm =~= target);
                                }
                            }
                            self.memory_map_objects.insert(ix, o);
                            proof {
                                assert(self.memory_map_objects@ =~= old_objs.update(ix as int, o));
                                assert(objs_model(self.memory_map_objects@) =~= model0.update(
                                    ix as int,
                                    obj_model(o),
                                ));
                                assert(obj_model(o) == ObjSpec {
                                    name: model0[ix as int].name,
                                    sizes: spec_update_sizes(
                                        model0[ix as int].sizes,
                                        segment.name@,
                                        crate::entry::spec_size(e_spec),
                                    ),
                                });
                                assert(objs_model(self.memory_map_objects@) == spec_rollup_entry(
                                    model0,
                                    segment.name@,
                                    e_spec,
                                ));
                            }
                        },
                    }
                },
            }
            i = i + 1;
        }
        self.memory_map_segments.push(segment);
    }
}

/// The memory-map segments decoded from the chunks `chunks[i..]`, given the
/// top-level section the scan is currently inside.  Only chunks seen while
/// inside the memory-map section are decoded; a chunk that fails to decode
/// there may instead switch to another section, and any chunk's first line
/// may switch the section elsewhere.
pub open spec fn spec_doc_segments(chunks: Seq<Seq<char>>, i: int, cur: Option<Section>) -> Seq<
    SegSpec,
>
    decreases chunks.len() - i,
{
    if i < 0 || i >= chunks.len() {
        Seq::empty()
    } else {
        let c = chunks[i];
        if c.len() == 0 {
            spec_doc_segments(chunks, i + 1, cur)
        } else {
            let first = spec_lines(c)[0];
            match cur {
                None => spec_doc_segments(chunks, i + 1, spec_classify(first)),
                Some(Section::MemoryMap) => match spec_parse_segment(c) {
                    Some(m) => seq![m] + spec_doc_segments(chunks, i + 1, cur),
                    None => match spec_classify(first) {
                        Some(t) => spec_doc_segments(chunks, i + 1, Some(t)),
                        None => spec_doc_segments(chunks, i + 1, cur),
                    },
                },
                Some(_) => match spec_classify(first) {
                    Some(t) => spec_doc_segments(chunks, i + 1, Some(t)),
                    None => spec_doc_segments(chunks, i + 1, cur),
                },
            }
        }
    }
}

proof fn lemma_rollup_snoc(objs: Seq<ObjSpec>, segs: Seq<Segment>, s: Segment, i: int)
    requires
        0 <= i <= segs.len(),
    ensures
        spec_rollup_segments(objs, segs.push(s), i) == spec_add_segment(
            spec_rollup_segments(objs, segs, i),
            s,
        ),
    decreases segs.len() - i,
{
    if i == segs.len() {
        assert(segs.push(s)[i] == s);
        assert(spec_rollup_segments(spec_add_segment(objs, s), segs.push(s), i + 1)
            == spec_add_segment(objs, s));
        assert(spec_rollup_segments(objs, segs, i) == objs);
    } else {
        assert(segs.push(s)[i] == segs[i]);
        lemma_rollup_snoc(spec_add_segment(objs, segs[i]), segs, s, i + 1);
    }
}

impl Parser {
    /// Decodes one whole map document: the text is split on blank lines, the
    /// chunks are classified into top-level sections, and every chunk inside
    /// the memory-map section that decodes as a segment is stored, with its
    /// records rolled up by object.
    #[verifier::rlimit(100)]
    #[verifier::spinoff_prover]
    pub fn parse(data: &str) -> (r: Parser)
        ensures
            ({
                let models = spec_doc_segments(spec_chunks(data@), 0, None);
                &&& r.memory_map_segments@.len() == models.len()
                &&& forall|i: int|
                    0 <= i < models.len() ==> seg_matches(
                        #[trigger] r.memory_map_segments@[i],
                        models[i],
                    )
                &&& objs_model(r.memory_map_objects@) == spec_rollup_segments(
                    Seq::empty(),
                    r.memory_map_segments@,
                    0,
                )
            }),
    {
        let v = chars_of(data);
        let n = v.len();
        proof {
            assert(v@.subrange(0, n as int) =~= v@);
        }
        let chunks = chunks_in(&v, 0, n);
        let ghost cv = spec_chunks(v@);
        let ghost models = spec_doc_segments(cv, 0, None);
        let mut parser = Parser::new();
        let mut cur: Option<Section> = None;
        let mut i: usize = 0;
        let nc = chunks.len();
        let ghost mut done: Seq<SegSpec> = Seq::empty();
        proof {
            assert(models =~= done + spec_doc_segments(cv, 0, None));
        }
        while i < nc
            invariant
                v@ == data@,
                n == v@.len(),
                nc == chunks@.len() == cv.len(),
                i <= nc,
                cv == spec_chunks(v@),
                ranges_match(v@, chunks@, cv, 0, n as int),
                models == spec_doc_segments(cv, 0, None),
                models == done + spec_doc_segments(cv, i as int, cur),
                parser.memory_map_segments@.len() == done.len(),
                forall|k: int|
                    0 <= k < done.len() ==> seg_matches(
                        #[trigger] parser.memory_map_segments@[k],
                        done[k],
                    ),
                objs_model(parser.memory_map_objects@) == spec_rollup_segments(
                    Seq::empty(),
                    parser.memory_map_segments@,
                    0,
                ),
            decreases nc - i,
        {
            let (clo, chi) = chunks[i];
            let ghost c = cv[i as int];
            proof {
                assert(c == v@.subrange(clo as int, chi as int));
            }
            if chi > clo {
                let ghost first = spec_lines(c)[0];
                let e = scan_line_end(&v, clo, chi);
                proof {
                    assert(line_len(c) == e - clo);
                    if e - clo < c.len() {
                        assert(c.take((e - clo) as int) =~= v@.subrange(clo as int, e as int));
                    } else {
                        assert(c =~= v@.subrange(clo as int, e as int));
                    }
                    assert(first == v@.subrange(clo as int, e as int));
                }
                let mm = match cur {
                    Some(Section::MemoryMap) => true,
                    _ => false,
                };
                if mm {
                    let chunk_str = data.substring_char(clo, chi);
                    match Parser::parse_segment(chunk_str) {
                        Some(seg) => {
                            let ghost m = spec_parse_segment(c)->0;
                            let ghost segs0 = parser.memory_map_segments@;
                            parser.add_segment(seg);
                            proof {
                                lemma_rollup_snoc(Seq::empty(), segs0, seg, 0);
                                assert(spec_doc_segments(cv, i as int, cur) == seq![m]
                                    + spec_doc_segments(cv, i + 1, cur));
                                done = done.push(m);
                                assert(models =~= done + spec_doc_segments(cv, i + 1, cur));
                            }
                        },
                        None => {
                            let line_str = data.substring_char(clo, e);
                            match Parser::parse_section(line_str) {
                                Some(t) => {
                                    proof {
                                        assert(spec_doc_segments(cv, i as int, cur)
                                            == spec_doc_segments(cv, i + 1, Some(t)));
                                    }
                                    cur = Some(t);
                                },
                                None => {
                                    proof {
                                        assert(spec_doc_segments(cv, i as int, cur)
                                            == spec_doc_segments(cv, i + 1, cur));
                                    }
                                },
                            }
                        },
                    }
                } else {
                    let line_str = data.substring_char(clo, e);
                    let t = Parser::parse_section(line_str);
                    match cur {
                        None => {
                            proof {
                                assert(spec_doc_segments(cv, i as int, cur) == spec_doc_segments(
                                    cv,
                                    i + 1,
                                    spec_classify(first),
                                ));
                            }
                            cur = t;
                        },
                        Some(_) => {
                            match t {
                                Some(tt) => {
                                    proof {
                                        assert(spec_doc_segments(cv, i as int, cur)
                                            == spec_doc_segments(cv, i + 1, Some(tt)));
                                    }
                                    cur = Some(tt);
                                },
                                None => {
                                    proof {
                                        assert(spec_doc_segments(cv, i as int, cur)
                                            == spec_doc_segments(cv, i + 1, cur));
                                    }
                                },
                            }
                        },
                    }
                }
            }
            i = i + 1;
        }
        proof {
            assert(spec_doc_segments(cv, nc as int, cur) =~= Seq::<SegSpec>::empty());
            assert(models =~= done);
        }
        parser
    }
}

impl Default for Parser {
    /// An empty parser.
    fn default() -> (r: Parser)
        ensures
            r.memory_map_segments@ == Seq::<Segment>::empty(),
            r.memory_map_objects@ == Seq::<Object>::empty(),
    {
        Parser::new()
    }
}

/// The section whose title occurs inside the line, if any; earlier titles in
/// the chain take precedence.
pub open spec fn spec_classify_within(line: Seq<char>) -> Option<Section> {
    if spec_contains(line, "Archive member included"@) {
        Some(Section::ArchiveMembers)
    } else if spec_contains(line, "Allocating common symbols"@) {
        Some(Section::CommonSymbols)
    } else if spec_contains(line, "Discarded input sections"@) {
        Some(Section::DiscardedInput)
    } else if spec_contains(line, "Memory Configuration"@) {
        Some(Section::MemoryConfiguration)
    } else if spec_contains(line, "Linker script and memory map"@) {
        Some(Section::MemoryMap)
    } else {
        None
    }
}

/// The classifier's result as mathematical ranges, one per section.
pub struct RangesSpec {
    pub archive_members: Option<(int, int)>,
    pub common_symbols: Option<(int, int)>,
    pub discarded_input: Option<(int, int)>,
    pub memory_configuration: Option<(int, int)>,
    pub memory_map: Option<(int, int)>,
}

/// The empty classifier state.
pub open spec fn ranges_spec_empty() -> RangesSpec {
    RangesSpec {
        archive_members: None,
        common_symbols: None,
        discarded_input: None,
        memory_configuration: None,
        memory_map: None,
    }
}

/// Records `range` as the content range of section `t`; the text before any
/// title belongs to no section and is dropped.
pub open spec fn store_range(acc: RangesSpec, t: Option<Section>, range: (int, int)) -> RangesSpec {
    match t {
        None => acc,
        Some(Section::ArchiveMembers) => RangesSpec { archive_members: Some(range), ..acc },
        Some(Section::CommonSymbols) => RangesSpec { common_symbols: Some(range), ..acc },
        Some(Section::DiscardedInput) => RangesSpec { discarded_input: Some(range), ..acc },
        Some(Section::MemoryConfiguration) => RangesSpec {
            memory_configuration: Some(range),
            ..acc
        },
        Some(Section::MemoryMap) => RangesSpec { memory_map: Some(range), ..acc },
    }
}

/// The classifier scan over the text `s`, whose first character sits at
/// offset `pos`: a line containing a section title closes the current
/// section's range at the title line's start and opens the new section's
/// range just after the title line; a repeated range for one section
/// overwrites the earlier one.
pub open spec fn spec_scan_ranges(
    s: Seq<char>,
    pos: int,
    start: int,
    last: Option<Section>,
    acc: RangesSpec,
) -> RangesSpec
    decreases s.len(),
{
    if s.len() == 0 {
        store_range(acc, last, (start, pos))
    } else {
        let k = line_len(s) as int;
        if 0 <= k && k <= s.len() {
            let line = s.take(k);
            let rest = if k == s.len() {
                Seq::<char>::empty()
            } else {
                s.skip(k + 1)
            };
            let cls = spec_classify_within(line);
            let curr = if cls is Some {
                cls
            } else {
                last
            };
            if curr != last {
                spec_scan_ranges(
                    rest,
                    pos + k + 1,
                    pos + k + 1,
                    curr,
                    store_range(acc, last, (start, pos)),
                )
            } else {
                spec_scan_ranges(rest, pos + k + 1, start, last, acc)
            }
        } else {
            store_range(acc, last, (start, pos))
        }
    }
}

/// The classifier's result over a whole document.
pub open spec fn spec_section_ranges(s: Seq<char>) -> RangesSpec {
    spec_scan_ranges(s, 0, 0, None, ranges_spec_empty())
}

/// The five stored ranges, in title order.
pub open spec fn ranges_list(m: RangesSpec) -> Seq<Option<(int, int)>> {
    seq![
        m.archive_members,
        m.common_symbols,
        m.discarded_input,
        m.memory_configuration,
        m.memory_map,
    ]
}

/// Two optional ranges do not overlap.
pub open spec fn opt_disjoint(a: Option<(int, int)>, b: Option<(int, int)>) -> bool {
    match (a, b) {
        (Some((a0, a1)), Some((b0, b1))) => a1 <= b0 || b1 <= a0,
        _ => true,
    }
}

/// All stored ranges are well-formed and end at or before `bound`.
pub open spec fn ranges_within(m: RangesSpec, bound: int) -> bool {
    forall|i: int|
        0 <= i < 5 ==> match #[trigger] ranges_list(m)[i] {
            Some((x, y)) => x <= y <= bound,
            None => true,
        }
}

/// All stored ranges are pairwise disjoint.
pub open spec fn ranges_disjoint(m: RangesSpec) -> bool {
    forall|i: int, j: int|
        0 <= i < j < 5 ==> opt_disjoint(#[trigger] ranges_list(m)[i], #[trigger] ranges_list(m)[j])
}

#[verifier::rlimit(100)]
#[verifier::spinoff_prover]
proof fn lemma_scan_ranges_disjoint(
    s: Seq<char>,
    pos: int,
    start: int,
    last: Option<Section>,
    acc: RangesSpec,
)
    requires
        start <= pos,
        ranges_within(acc, start),
        ranges_disjoint(acc),
    ensures
        ranges_disjoint(spec_scan_ranges(s, pos, start, last, acc)),
        forall|i: int|
            0 <= i < 5 ==> match #[trigger] ranges_list(
                spec_scan_ranges(s, pos, start, last, acc),
            )[i] {
                Some((x, y)) => x <= y,
                None => true,
            },
    decreases s.len(),
{
    if s.len() == 0 {
        let r = store_range(acc, last, (start, pos));
        assert(ranges_within(r, pos));
        assert(ranges_disjoint(r));
    } else {
        let k = line_len(s) as int;
        if 0 <= k && k <= s.len() {
            let line = s.take(k);
            let rest: Seq<char> = if k == s.len() {
                Seq::<char>::empty()
            } else {
                s.skip(k + 1)
            };
            let cls = spec_classify_within(line);
            let curr = if cls is Some {
                cls
            } else {
                last
            };
            if curr != last {
                let acc2 = store_range(acc, last, (start, pos));
                assert(ranges_within(acc2, pos + k + 1));
                assert(ranges_disjoint(acc2));
                lemma_scan_ranges_disjoint(rest, pos + k + 1, pos + k + 1, curr, acc2);
            } else {
                lemma_scan_ranges_disjoint(rest, pos + k + 1, start, last, acc);
            }
        } else {
            let r = store_range(acc, last, (start, pos));
            assert(ranges_within(r, pos));
            assert(ranges_disjoint(r));
        }
    }
}

/// Section classification yields disjoint ranges: whatever the document, the
/// content ranges stored for the five sections are well-formed and pairwise
/// disjoint, so each position of the document belongs to at most one section.
pub proof fn lemma_section_ranges_disjoint(s: Seq<char>)
    ensures
        ranges_disjoint(spec_section_ranges(s)),
        forall|i: int|
            0 <= i < 5 ==> match #[trigger] ranges_list(spec_section_ranges(s))[i] {
                Some((x, y)) => x <= y,
                None => true,
            },
{
    lemma_scan_ranges_disjoint(s, 0, 0, None, ranges_spec_empty());
}

/// The classifier state (offset, range start, current section, stored
/// ranges) after consuming every line of `s`, without the final store.
pub open spec fn scan_state(
    s: Seq<char>,
    pos: int,
    start: int,
    last: Option<Section>,
    acc: RangesSpec,
) -> (int, int, Option<Section>, RangesSpec)
    decreases s.len(),
{
    if s.len() == 0 {
        (pos, start, last, acc)
    } else {
        let k = line_len(s) as int;
        if 0 <= k && k <= s.len() {
            let line = s.take(k);
            let rest = if k == s.len() {
                Seq::<char>::empty()
            } else {
                s.skip(k + 1)
            };
            let cls = spec_classify_within(line);
            let curr = if cls is Some {
                cls
            } else {
                last
            };
            if curr != last {
                scan_state(rest, pos + k + 1, pos + k + 1, curr, store_range(acc, last, (start, pos)))
            } else {
                scan_state(rest, pos + k + 1, start, last, acc)
            }
        } else {
            (pos, start, last, acc)
        }
    }
}

/// Every line of the text ends with its newline.
pub open spec fn line_closed(s: Seq<char>) -> bool {
    s.len() == 0 || s.last() == '\n'
}

/// No line of the text contains a section title.
pub open spec fn all_lines_neutral(s: Seq<char>) -> bool
    decreases s.len(),
{
    if s.len() == 0 {
        true
    } else {
        let k = line_len(s) as int;
        if 0 <= k && k <= s.len() {
            spec_classify_within(s.take(k)) is None && (if k == s.len() {
                true
            } else {
                all_lines_neutral(s.skip(k + 1))
            })
        } else {
            true
        }
    }
}

proof fn lemma_line_len_le_newline(s: Seq<char>, j: int)
    requires
        0 <= j < s.len(),
        s[j] == '\n',
    ensures
        line_len(s) <= j,
    decreases j,
{
    if s[0] != '\n' {
        lemma_line_len_le_newline(s.drop_first(), j - 1);
    }
}

proof fn lemma_no_newline_before_line_len(s: Seq<char>, j: int)
    requires
        0 <= j < line_len(s),
        j < s.len(),
    ensures
        s[j] != '\n',
    decreases j,
{
    if j > 0 {
        lemma_no_newline_before_line_len(s.drop_first(), j - 1);
    }
}

proof fn lemma_newline_at_line_len(s: Seq<char>)
    requires
        line_len(s) < s.len(),
    ensures
        s[line_len(s) as int] == '\n',
    decreases s.len(),
{
    if s.len() > 0 && s[0] != '\n' {
        lemma_newline_at_line_len(s.drop_first());
    }
}

proof fn lemma_scan_is_store(s: Seq<char>, pos: int, start: int, last: Option<Section>, acc: RangesSpec)
    ensures
        ({
            let (p, st, l, a) = scan_state(s, pos, start, last, acc);
            spec_scan_ranges(s, pos, start, last, acc) == store_range(a, l, (st, p))
        }),
    decreases s.len(),
{
    if s.len() == 0 {
    } else {
        let k = line_len(s) as int;
        if 0 <= k && k <= s.len() {
            let line = s.take(k);
            let rest: Seq<char> = if k == s.len() {
                Seq::<char>::empty()
            } else {
                s.skip(k + 1)
            };
            let cls = spec_classify_within(line);
            let curr = if cls is Some {
                cls
            } else {
                last
            };
            if curr != last {
                lemma_scan_is_store(rest, pos + k + 1, pos + k + 1, curr, store_range(acc, last, (start, pos)));
            } else {
                lemma_scan_is_store(rest, pos + k + 1, start, last, acc);
            }
        }
    }
}

proof fn lemma_scan_state_append(
    x: Seq<char>,
    y: Seq<char>,
    pos: int,
    start: int,
    last: Option<Section>,
    acc: RangesSpec,
)
    requires
        line_closed(x),
    ensures
        ({
            let (p, st, l, a) = scan_state(x, pos, start, last, acc);
            scan_state(x + y, pos, start, last, acc) == scan_state(y, p, st, l, a)
        }),
    decreases x.len(),
{
    if x.len() == 0 {
        assert(x + y =~= y);
    } else {
        let u = x + y;
        let k = line_len(x) as int;
        lemma_line_len_le_newline(x, x.len() - 1);
        assert(k < x.len());
        assert forall|j: int| 0 <= j < k implies (#[trigger] u[j]) != '\n' by {
            assert(u[j] == x[j]);
            lemma_no_newline_before_line_len(x, j);
        }
        assert(u[k] == x[k]);
        lemma_newline_at_line_len(x);
        assert(x[k] == '\n');
        crate::lex::lemma_line_len_at(u, k);
        assert(u.take(k) =~= x.take(k));
        assert(u.skip(k + 1) =~= x.skip(k + 1) + y);
        assert(line_closed(x.skip(k + 1))) by {
            if x.skip(k + 1).len() > 0 {
                assert(x.skip(k + 1).last() == x.last());
            }
        }
        let line = x.take(k);
        let cls = spec_classify_within(line);
        let curr = if cls is Some {
            cls
        } else {
            last
        };
        if curr != last {
            lemma_scan_state_append(
                x.skip(k + 1),
                y,
                pos + k + 1,
                pos + k + 1,
                curr,
                store_range(acc, last, (start, pos)),
            );
        } else {
            lemma_scan_state_append(x.skip(k + 1), y, pos + k + 1, start, last, acc);
        }
    }
}

proof fn lemma_scan_state_neutral(
    b: Seq<char>,
    pos: int,
    start: int,
    last: Option<Section>,
    acc: RangesSpec,
)
    requires
        line_closed(b),
        all_lines_neutral(b),
    ensures
        scan_state(b, pos, start, last, acc) == (pos + b.len(), start, last, acc),
    decreases b.len(),
{
    if b.len() > 0 {
        let k = line_len(b) as int;
        lemma_line_len_le_newline(b, b.len() - 1);
        lemma_newline_at_line_len(b);
        assert(k < b.len());
        let rest = b.skip(k + 1);
        assert(line_closed(rest)) by {
            if rest.len() > 0 {
                assert(rest.last() == b.last());
            }
        }
        lemma_scan_state_neutral(rest, pos + k + 1, start, last, acc);
    }
}

proof fn lemma_line_len_bound(s: Seq<char>)
    ensures
        line_len(s) <= s.len(),
    decreases s.len(),
{
    if s.len() > 0 && s[0] != '\n' {
        lemma_line_len_bound(s.drop_first());
    }
}

/// The offset the classifier advances by when it consumes the whole text:
/// the text's length, plus one when its last line has no final newline.
pub open spec fn text_weight(s: Seq<char>) -> int {
    if line_closed(s) {
        s.len() as int
    } else {
        s.len() as int + 1
    }
}

proof fn lemma_scan_state_neutral_any(
    b: Seq<char>,
    pos: int,
    start: int,
    last: Option<Section>,
    acc: RangesSpec,
)
    requires
        all_lines_neutral(b),
    ensures
        scan_state(b, pos, start, last, acc) == (pos + text_weight(b), start, last, acc),
    decreases b.len(),
{
    if b.len() > 0 {
        let k = line_len(b) as int;
        lemma_line_len_bound(b);
        assert(spec_classify_within(b.take(k)) is None);
        if k < b.len() {
            lemma_newline_at_line_len(b);
            let rest = b.skip(k + 1);
            lemma_scan_state_neutral_any(rest, pos + k + 1, start, last, acc);
            assert(text_weight(b) == k + 1 + text_weight(rest)) by {
                if rest.len() > 0 {
                    assert(rest.last() == b.last());
                } else {
                    assert(b.last() == b[k]);
                }
            }
        } else {
            assert(b.last() != '\n') by {
                lemma_no_newline_before_line_len(b, b.len() - 1);
            }
            assert(!line_closed(b));
            assert(scan_state(Seq::<char>::empty(), pos + k + 1, start, last, acc) == (
                pos + k + 1,
                start,
                last,
                acc,
            ));
        }
    }
}

proof fn lemma_scan_state_title(
    t: Seq<char>,
    pos: int,
    start: int,
    last: Option<Section>,
    acc: RangesSpec,
)
    requires
        forall|j: int| 0 <= j < t.len() ==> (#[trigger] t[j]) != '\n',
        spec_classify_within(t) is Some,
        spec_classify_within(t) != last,
    ensures
        scan_state(t + seq!['\n'], pos, start, last, acc) == (
            pos + t.len() + 1,
            pos + t.len() + 1,
            spec_classify_within(t),
            store_range(acc, last, (start, pos)),
        ),
{
    let u = t + seq!['\n'];
    assert forall|j: int| 0 <= j < t.len() implies (#[trigger] u[j]) != '\n' by {
        assert(u[j] == t[j]);
    }
    assert(u[t.len() as int] == '\n');
    crate::lex::lemma_line_len_at(u, t.len() as int);
    assert(u.take(t.len() as int) =~= t);
    assert(u.skip(t.len() as int + 1) =~= Seq::<char>::empty());
    let cls = spec_classify_within(t);
    let st2 = store_range(acc, last, (start, pos));
    assert(scan_state(
        Seq::<char>::empty(),
        pos + t.len() + 1,
        pos + t.len() + 1,
        cls,
        st2,
    ) == (pos + t.len() + 1, pos + t.len() + 1, cls, st2));
}

/// Section classification over a document made of leading text, then the
/// five title lines in order, each followed by a body without further
/// titles: the classifier yields the five content ranges in appearance
/// order, each running from just after its title line to the start of the
/// next title line, the last to the document's end.  The ranges are
/// disjoint, and together with the leading text and the five title lines
/// they cover the whole document.
#[verifier::rlimit(100)]
#[verifier::spinoff_prover]
pub proof fn lemma_five_section_document(
    lead: Seq<char>,
    t0: Seq<char>,
    b0: Seq<char>,
    t1: Seq<char>,
    b1: Seq<char>,
    t2: Seq<char>,
    b2: Seq<char>,
    t3: Seq<char>,
    b3: Seq<char>,
    t4: Seq<char>,
    b4: Seq<char>,
)
    requires
        forall|j: int| 0 <= j < t0.len() ==> (#[trigger] t0[j]) != '\n',
        forall|j: int| 0 <= j < t1.len() ==> (#[trigger] t1[j]) != '\n',
        forall|j: int| 0 <= j < t2.len() ==> (#[trigger] t2[j]) != '\n',
        forall|j: int| 0 <= j < t3.len() ==> (#[trigger] t3[j]) != '\n',
        forall|j: int| 0 <= j < t4.len() ==> (#[trigger] t4[j]) != '\n',
        spec_classify_within(t0) == Some(Section::ArchiveMembers),
        spec_classify_within(t1) == Some(Section::CommonSymbols),
        spec_classify_within(t2) == Some(Section::DiscardedInput),
        spec_classify_within(t3) == Some(Section::MemoryConfiguration),
        spec_classify_within(t4) == Some(Section::MemoryMap),
        line_closed(lead) && all_lines_neutral(lead),
        line_closed(b0) && all_lines_neutral(b0),
        line_closed(b1) && all_lines_neutral(b1),
        line_closed(b2) && all_lines_neutral(b2),
        line_closed(b3) && all_lines_neutral(b3),
        all_lines_neutral(b4),
    ensures
        ({
            let doc = lead + (t0 + seq!['\n']) + b0 + (t1 + seq!['\n']) + b1 + (t2 + seq!['\n'])
                + b2 + (t3 + seq!['\n']) + b3 + (t4 + seq!['\n']) + b4;
            let r = spec_section_ranges(doc);
            let a0 = lead.len() + t0.len() + 1;
            let e0 = a0 + b0.len();
            let a1 = e0 + t1.len() + 1;
            let e1 = a1 + b1.len();
            let a2 = e1 + t2.len() + 1;
            let e2 = a2 + b2.len();
            let a3 = e2 + t3.len() + 1;
            let e3 = a3 + b3.len();
            let a4 = e3 + t4.len() + 1;
            let e4 = a4 as int + text_weight(b4);
            &&& r.archive_members == Some((a0 as int, e0 as int))
            &&& r.common_symbols == Some((a1 as int, e1 as int))
            &&& r.discarded_input == Some((a2 as int, e2 as int))
            &&& r.memory_configuration == Some((a3 as int, e3 as int))
            &&& r.memory_map == Some((a4 as int, e4))
            &&& a4 + b4.len() == doc.len()
        }),
{
    let nl = seq!['\n'];
    let p0 = t0 + nl;
    let p1 = t1 + nl;
    let p2 = t2 + nl;
    let p3 = t3 + nl;
    let p4 = t4 + nl;
    let doc = lead + p0 + b0 + p1 + b1 + p2 + b2 + p3 + b3 + p4 + b4;
    let acc0 = ranges_spec_empty();

    assert(line_closed(p0) && line_closed(p1) && line_closed(p2) && line_closed(p3) && line_closed(
        p4,
    ));

    let sl = scan_state(lead, 0, 0, None, acc0);
    lemma_scan_state_neutral(lead, 0, 0, None, acc0);
    let s0 = scan_state(p0, sl.0, sl.1, sl.2, sl.3);
    lemma_scan_state_title(t0, sl.0, sl.1, sl.2, sl.3);
    let s1 = scan_state(b0, s0.0, s0.1, s0.2, s0.3);
    lemma_scan_state_neutral(b0, s0.0, s0.1, s0.2, s0.3);
    let s2 = scan_state(p1, s1.0, s1.1, s1.2, s1.3);
    lemma_scan_state_title(t1, s1.0, s1.1, s1.2, s1.3);
    let s3 = scan_state(b1, s2.0, s2.1, s2.2, s2.3);
    lemma_scan_state_neutral(b1, s2.0, s2.1, s2.2, s2.3);
    let s4 = scan_state(p2, s3.0, s3.1, s3.2, s3.3);
    lemma_scan_state_title(t2, s3.0, s3.1, s3.2, s3.3);
    let s5 = scan_state(b2, s4.0, s4.1, s4.2, s4.3);
    lemma_scan_state_neutral(b2, s4.0, s4.1, s4.2, s4.3);
    let s6 = scan_state(p3, s5.0, s5.1, s5.2, s5.3);
    lemma_scan_state_title(t3, s5.0, s5.1, s5.2, s5.3);
    let s7 = scan_state(b3, s6.0, s6.1, s6.2, s6.3);
    lemma_scan_state_neutral(b3, s6.0, s6.1, s6.2, s6.3);
    let s8 = scan_state(p4, s7.0, s7.1, s7.2, s7.3);
    lemma_scan_state_title(t4, s7.0, s7.1, s7.2, s7.3);
    let s9 = scan_state(b4, s8.0, s8.1, s8.2, s8.3);
    lemma_scan_state_neutral_any(b4, s8.0, s8.1, s8.2, s8.3);

    lemma_scan_state_append(lead, p0 + b0 + p1 + b1 + p2 + b2 + p3 + b3 + p4 + b4, 0, 0, None, acc0);
    assert(doc =~= lead + (p0 + b0 + p1 + b1 + p2 + b2 + p3 + b3 + p4 + b4));
    lemma_scan_state_append(p0, b0 + p1 + b1 + p2 + b2 + p3 + b3 + p4 + b4, sl.0, sl.1, sl.2, sl.3);
    assert(p0 + b0 + p1 + b1 + p2 + b2 + p3 + b3 + p4 + b4 =~= p0 + (b0 + p1 + b1 + p2 + b2 + p3
        + b3 + p4 + b4));
    lemma_scan_state_append(b0, p1 + b1 + p2 + b2 + p3 + b3 + p4 + b4, s0.0, s0.1, s0.2, s0.3);
    assert(b0 + p1 + b1 + p2 + b2 + p3 + b3 + p4 + b4 =~= b0 + (p1 + b1 + p2 + b2 + p3 + b3 + p4
        + b4));
    lemma_scan_state_append(p1, b1 + p2 + b2 + p3 + b3 + p4 + b4, s1.0, s1.1, s1.2, s1.3);
    assert(p1 + b1 + p2 + b2 + p3 + b3 + p4 + b4 =~= p1 + (b1 + p2 + b2 + p3 + b3 + p4 + b4));
    lemma_scan_state_append(b1, p2 + b2 + p3 + b3 + p4 + b4, s2.0, s2.1, s2.2, s2.3);
    assert(b1 + p2 + b2 + p3 + b3 + p4 + b4 =~= b1 + (p2 + b2 + p3 + b3 + p4 + b4));
    lemma_scan_state_append(p2, b2 + p3 + b3 + p4 + b4, s3.0, s3.1, s3.2, s3.3);
    assert(p2 + b2 + p3 + b3 + p4 + b4 =~= p2 + (b2 + p3 + b3 + p4 + b4));
    lemma_scan_state_append(b2, p3 + b3 + p4 + b4, s4.0, s4.1, s4.2, s4.3);
    assert(b2 + p3 + b3 + p4 + b4 =~= b2 + (p3 + b3 + p4 + b4));
    lemma_scan_state_append(p3, b3 + p4 + b4, s5.0, s5.1, s5.2, s5.3);
    assert(p3 + b3 + p4 + b4 =~= p3 + (b3 + p4 + b4));
    lemma_scan_state_append(b3, p4 + b4, s6.0, s6.1, s6.2, s6.3);
    assert(b3 + p4 + b4 =~= b3 + (p4 + b4));
    lemma_scan_state_append(p4, b4, s7.0, s7.1, s7.2, s7.3);

    assert(scan_state(doc, 0, 0, None, acc0) == s9);
    lemma_scan_is_store(doc, 0, 0, None, acc0);
}

/// The content range found for each top-level section: from just after the
/// section's most recent title line to the start of the next title line or
/// the document's end.
#[derive(Debug, Clone, Copy, PartialEq, Eq)]
pub struct SectionRanges {
    pub archive_members: Option<(usize, usize)>,
    pub common_symbols: Option<(usize, usize)>,
    pub discarded_input: Option<(usize, usize)>,
    pub memory_configuration: Option<(usize, usize)>,
    pub memory_map: Option<(usize, usize)>,
}

/// A range as a pair of mathematical integers.
pub open spec fn opt_range_view(o: Option<(usize, usize)>) -> Option<(int, int)> {
    match o {
        None => None,
        Some((a, b)) => Some((a as int, b as int)),
    }
}

/// The stored ranges `r` are exactly the model `m`.
pub open spec fn section_ranges_match(r: SectionRanges, m: RangesSpec) -> bool {
    &&& opt_range_view(r.archive_members) == m.archive_members
    &&& opt_range_view(r.common_symbols) == m.common_symbols
    &&& opt_range_view(r.discarded_input) == m.discarded_input
    &&& opt_range_view(r.memory_configuration) == m.memory_configuration
    &&& opt_range_view(r.memory_map) == m.memory_map
}

/// Every stored range lies within the document, except that a title on the
/// very last line opens a range one past the end.
pub open spec fn section_ranges_bounded(r: SectionRanges, len: int) -> bool {
    &&& (r.archive_members matches Some((a, b)) ==> a <= b <= len + 1)
    &&& (r.common_symbols matches Some((a, b)) ==> a <= b <= len + 1)
    &&& (r.discarded_input matches Some((a, b)) ==> a <= b <= len + 1)
    &&& (r.memory_configuration matches Some((a, b)) ==> a <= b <= len + 1)
    &&& (r.memory_map matches Some((a, b)) ==> a <= b <= len + 1)
}

impl SectionRanges {
    /// Stores `range` under the tag `t`; no tag, no store.
    fn store(&mut self, t: Option<Section>, range: (usize, usize))
        ensures
            spec_ranges_of(*final(self)) == store_range(
                spec_ranges_of(*old(self)),
                t,
                (range.0 as int, range.1 as int),
            ),
    {
        match t {
            None => {},
            Some(Section::ArchiveMembers) => {
                self.archive_members = Some(range);
            },
            Some(Section::CommonSymbols) => {
                self.common_symbols = Some(range);
            },
            Some(Section::DiscardedInput) => {
                self.discarded_input = Some(range);
            },
            Some(Section::MemoryConfiguration) => {
                self.memory_configuration = Some(range);
            },
            Some(Section::MemoryMap) => {
                self.memory_map = Some(range);
            },
        }
    }
}

/// The model of the stored ranges.
pub open spec fn spec_ranges_of(r: SectionRanges) -> RangesSpec {
    RangesSpec {
        archive_members: opt_range_view(r.archive_members),
        common_symbols: opt_range_view(r.common_symbols),
        discarded_input: opt_range_view(r.discarded_input),
        memory_configuration: opt_range_view(r.memory_configuration),
        memory_map: opt_range_view(r.memory_map),
    }
}

impl Parser {
    /// Classifies the document into its top-level sections: for each section
    /// title seen, the content range from just after the title line to the
    /// next title line or the end.  Later occurrences of one title overwrite
    /// earlier ones.
    #[verifier::rlimit(100)]
    pub fn get_sections_pos(data: &str) -> (r: SectionRanges)
        requires
            data@.len() < usize::MAX,
        ensures
            spec_ranges_of(r) == spec_section_ranges(data@),
            section_ranges_bounded(r, data@.len() as int),
    {
        let v = chars_of(data);
        let n = v.len();
        let t0 = chars_of("Archive member included");
        let t1 = chars_of("Allocating common symbols");
        let t2 = chars_of("Discarded input sections");
        let t3 = chars_of("Memory Configuration");
        let t4 = chars_of("Linker script and memory map");
        let mut acc = SectionRanges {
            archive_members: None,
            common_symbols: None,
            discarded_input: None,
            memory_configuration: None,
            memory_map: None,
        };
        let mut cur: usize = 0;
        let mut start: usize = 0;
        let mut last: Option<Section> = None;
        let ghost mut pos: int = 0;
        proof {
            assert(v@.skip(0) =~= v@);
        }
        while cur < n
            invariant
                v@ == data@,
                n == v@.len(),
                n < usize::MAX,
                cur <= n,
                start <= n + 1,
                cur < n ==> pos == cur as int,
                cur == n ==> pos == n as int || pos == n + 1,
                cur == n && n == 0 ==> pos == 0,
                cur == n && n >= 1 && pos == n as int ==> v@[n - 1] == '\n',
                cur == n && n >= 1 && pos == n + 1 ==> v@[n - 1] != '\n',
                start as int <= pos,
                t0@ == "Archive member included"@,
                t1@ == "Allocating common symbols"@,
                t2@ == "Discarded input sections"@,
                t3@ == "Memory Configuration"@,
                t4@ == "Linker script and memory map"@,
                spec_section_ranges(data@) == spec_scan_ranges(
                    v@.skip(cur as int),
                    pos,
                    start as int,
                    last,
                    spec_ranges_of(acc),
                ),
                section_ranges_bounded(acc, n as int),
            decreases n - cur,
        {
            let ghost start0 = start as int;
            let ghost pos0 = pos;
            let e = scan_line_end(&v, cur, n);
            let ghost srem = v@.skip(cur as int);
            let ghost line = v@.subrange(cur as int, e as int);
            proof {
                assert(srem =~= v@.subrange(cur as int, n as int));
                assert(line_len(srem) == e - cur);
                assert(srem.take((e - cur) as int) =~= line);
            }
            let cls: Option<Section> = if contains_range(&v, cur, e, &t0) {
                Some(Section::ArchiveMembers)
            } else if contains_range(&v, cur, e, &t1) {
                Some(Section::CommonSymbols)
            } else if contains_range(&v, cur, e, &t2) {
                Some(Section::DiscardedInput)
            } else if contains_range(&v, cur, e, &t3) {
                Some(Section::MemoryConfiguration)
            } else if contains_range(&v, cur, e, &t4) {
                Some(Section::MemoryMap)
            } else {
                None
            };
            proof {
                assert(cls == spec_classify_within(line));
            }
            let curr: Option<Section> = match cls {
                Some(t) => Some(t),
                None => last,
            };
            let next_start = if e == n {
                n + 1
            } else {
                e + 1
            };
            if curr != last {
                acc.store(last, (start, cur));
                start = next_start;
                last = curr;
            }
            proof {
                let k = (e - cur) as int;
                let rest: Seq<char> = if e == n {
                    Seq::<char>::empty()
                } else {
                    srem.skip(k + 1)
                };
                if e < n {
                    assert(rest =~= v@.skip(e + 1 as int));
                } else {
                    assert(v@.skip(n as int) =~= Seq::<char>::empty());
                }
                pos = pos0 + k + 1;
            }
            if e == n {
                cur = n;
            } else {
                cur = e + 1;
            }
        }
        proof {
            assert(v@.skip(n as int) =~= Seq::<char>::empty());
        }
        let final_end = if n == 0 {
            0
        } else if v[n - 1] == '\n' {
            n
        } else {
            n + 1
        };
        proof {
            assert(final_end as int == pos);
        }
        acc.store(last, (start, final_end));
        acc
    }
}

impl Parser {
    /// Decodes a memory-map span at section granularity: one section per
    /// blank-line-separated chunk that decodes; chunks that do not decode are
    /// skipped.
    pub fn parse_memory_map(data: &str) -> (r: Vec<crate::section::Section>)
        ensures
            ({
                let ms = crate::section::spec_memory_map_sections(spec_chunks(data@), 0);
                &&& r@.len() == ms.len()
                &&& forall|k: int|
                    0 <= k < ms.len() ==> crate::section::sect_matches(#[trigger] r@[k], ms[k])
            }),
    {
        let v = chars_of(data);
        let n = v.len();
        proof {
            assert(v@.subrange(0, n as int) =~= v@);
        }
        let chunks = chunks_in(&v, 0, n);
        let ghost cv = spec_chunks(v@);
        let ghost ms = crate::section::spec_memory_map_sections(cv, 0);
        let ghost mut emitted: Seq<crate::section::SectSpec> = Seq::empty();
        let mut r: Vec<crate::section::Section> = Vec::new();
        let nc = chunks.len();
        let mut i: usize = 0;
        proof {
            assert(ms =~= emitted + crate::section::spec_memory_map_sections(cv, 0));
        }
        while i < nc
            invariant
                v@ == data@,
                n == v@.len(),
                nc == chunks@.len() == cv.len(),
                i <= nc,
                cv == spec_chunks(v@),
                ranges_match(v@, chunks@, cv, 0, n as int),
                ms == crate::section::spec_memory_map_sections(cv, 0),
                ms == emitted + crate::section::spec_memory_map_sections(cv, i as int),
                r@.len() == emitted.len(),
                forall|k: int|
                    0 <= k < emitted.len() ==> crate::section::sect_matches(
                        #[trigger] r@[k],
                        emitted[k],
                    ),
            decreases nc - i,
        {
            let (clo, chi) = chunks[i];
            proof {
                assert(cv[i as int] == v@.subrange(clo as int, chi as int));
            }
            let chunk_str = data.substring_char(clo, chi);
            match crate::section::Section::parse_section_data(chunk_str) {
                Ok(sec) => {
                    r.push(sec);
                    proof {
                        let mm = crate::section::spec_parse_section_data(cv[i as int])->Ok_0;
                        emitted = emitted.push(mm);
                        assert(crate::section::spec_memory_map_sections(cv, i as int) == seq![mm]
                            + crate::section::spec_memory_map_sections(cv, i + 1));
                        assert(ms =~= emitted + crate::section::spec_memory_map_sections(
                            cv,
                            i + 1,
                        ));
                    }
                },
                Err(_) => {
                    proof {
                        assert(crate::section::spec_memory_map_sections(cv, i as int)
                            == crate::section::spec_memory_map_sections(cv, i + 1));
                    }
                },
            }
            i = i + 1;
        }
        proof {
            assert(crate::section::spec_memory_map_sections(cv, nc as int) =~= Seq::<
                crate::section::SectSpec,
            >::empty());
            assert(ms =~= emitted);
        }
        r
    }
}

/// Header directive rejected: a header span whose first line contains the
/// linker directive marker never decodes to a segment.
pub proof fn lemma_load_header_rejected(s: Seq<char>)
    requires
        spec_contains(spec_lines(s)[0], load_marker()),
    ensures
        spec_decode_segment_info(s) is None,
{
}

} // verus!
