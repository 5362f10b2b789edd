//! Sections: the section-granularity assembler, which builds one memory-map
//! section from a span of text, decoding a header and a list of sub-section
//! records.

use vstd::prelude::*;
use vstd::string::{StrSliceExecFns, StringExecFns};

use crate::errors::ParserError;
use crate::fill::{add_sizes, sat_add};
use crate::grammar::{
    fill_marker, load_marker, sort_marker, spec_fill_of_line, spec_sub_from_str, RecSpec,
};
use crate::lex::{
    chars_of, contains_range, has_space, has_space_in, hex_token_val, is_hex_u64_token,
    is_name_char, name_run, ranges_match, scan_name_end, scan_token_end, spec_contains,
    spec_is_name_char, spec_lines, spec_starts_with, spec_tokens, spec_trim, split_lines,
    starts_with_range, token_len, tokens_in, trim_in, hex_token_value,
};
use crate::subsection::{spec_size as sub_spec_size, sub_matches, SubSection};

verus! {

/// One memory-map section: a name, an optional address (with the size zero
/// when absent), and its sub-section records in source order.
#[derive(Debug, Clone, PartialEq, Eq)]
pub struct Section {
    pub name: String,
    pub address: Option<u64>,
    pub size: u64,
    pub sub_sections: Vec<SubSection>,
}

/// Remainder of the coalescing walk over `subs` from position `i`: as for
/// segments, consecutive records sharing one address count only the last
/// record's effective size.
pub open spec fn sub_walk_total(
    subs: Seq<SubSection>,
    i: int,
    last_address: u64,
    last_size: u64,
    sum: u64,
) -> u64
    decreases subs.len() - i,
{
    if i < 0 || i >= subs.len() {
        sat_add(sum, last_size)
    } else if subs[i].address == last_address {
        sub_walk_total(subs, i + 1, last_address, sub_spec_size(subs[i]), sum)
    } else {
        sub_walk_total(
            subs,
            i + 1,
            subs[i].address,
            sub_spec_size(subs[i]),
            sat_add(sum, last_size),
        )
    }
}

/// Total effective size of a sub-section list under same-address coalescing.
pub open spec fn sub_coalesced_total(subs: Seq<SubSection>) -> u64 {
    if subs.len() == 0 {
        0
    } else {
        sub_walk_total(subs, 1, subs[0].address, sub_spec_size(subs[0]), 0)
    }
}

/// Sub-section `i` closes a same-address group: it is the last record, or
/// the next record sits at a different address.
pub open spec fn sub_closes_group(subs: Seq<SubSection>, i: int) -> bool {
    0 <= i < subs.len() && (i == subs.len() - 1 || subs[i + 1].address != subs[i].address)
}

/// Sum of the effective sizes of the group-closing sub-sections at or after
/// `i`.
pub open spec fn sub_group_sum(subs: Seq<SubSection>, i: int) -> int
    decreases subs.len() - i,
{
    if i < 0 || i >= subs.len() {
        0
    } else {
        (if sub_closes_group(subs, i) {
            sub_spec_size(subs[i]) as int
        } else {
            0
        }) + sub_group_sum(subs, i + 1)
    }
}

proof fn lemma_sub_group_sum_nonneg(subs: Seq<SubSection>, i: int)
    ensures
        sub_group_sum(subs, i) >= 0,
    decreases subs.len() - i,
{
    if 0 <= i < subs.len() {
        lemma_sub_group_sum_nonneg(subs, i + 1);
    }
}

proof fn lemma_sub_walk_is_group_sum(subs: Seq<SubSection>, i: int, sum: u64)
    requires
        1 <= i <= subs.len(),
    ensures
        sub_walk_total(subs, i, subs[i - 1].address, sub_spec_size(subs[i - 1]), sum) as int == (
        if sum + sub_group_sum(subs, i - 1) <= u64::MAX {
            sum + sub_group_sum(subs, i - 1)
        } else {
            u64::MAX as int
        }),
    decreases subs.len() - i,
{
    lemma_sub_group_sum_nonneg(subs, i);
    if i == subs.len() {
        assert(sub_closes_group(subs, i - 1));
        assert(sub_group_sum(subs, i - 1) == sub_spec_size(subs[i - 1]) as int);
    } else {
        if subs[i].address == subs[i - 1].address {
            assert(!sub_closes_group(subs, i - 1));
            lemma_sub_walk_is_group_sum(subs, i + 1, sum);
        } else {
            assert(sub_closes_group(subs, i - 1));
            lemma_sub_walk_is_group_sum(subs, i + 1, sat_add(sum, sub_spec_size(subs[i - 1])));
        }
    }
}

/// The coalesced section total in closed form: the sum of the effective
/// sizes of the last sub-section of each run sharing one address, capped at
/// the largest representable value.
pub proof fn lemma_sub_coalesced_total_is_group_sum(subs: Seq<SubSection>)
    ensures
        sub_coalesced_total(subs) as int == if sub_group_sum(subs, 0) <= u64::MAX {
            sub_group_sum(subs, 0)
        } else {
            u64::MAX as int
        },
{
    if subs.len() == 0 {
    } else {
        lemma_sub_walk_is_group_sum(subs, 1, 0);
    }
}

/// The marker of fill-mask directive lines.
pub open spec fn fill_mask_text() -> Seq<char> {
    seq!['F', 'I', 'L', 'L', ' ', 'm', 'a', 's', 'k']
}

pub fn fill_mask_text_vec() -> (r: Vec<char>)
    ensures
        r@ == fill_mask_text(),
{
    let r = vec!['F', 'I', 'L', 'L', ' ', 'm', 'a', 's', 'k'];
    proof {
        assert(r@ =~= fill_mask_text());
    }
    r
}

/// The lines at or after `i`, without the empty ones.
pub open spec fn filter_nonempty_from(ls: Seq<Seq<char>>, i: int) -> Seq<Seq<char>>
    decreases ls.len() - i,
{
    if i < 0 || i >= ls.len() {
        Seq::empty()
    } else if ls[i].len() == 0 {
        filter_nonempty_from(ls, i + 1)
    } else {
        seq![ls[i]] + filter_nonempty_from(ls, i + 1)
    }
}

/// An alignment/sort or fill-mask directive line, skipped between records.
pub open spec fn is_directive_line(l: Seq<char>) -> bool {
    spec_contains(l, sort_marker()) || spec_contains(l, fill_mask_text())
}

/// The lines at or after `i`, without the directive lines.
pub open spec fn filter_directives_from(ls: Seq<Seq<char>>, i: int) -> Seq<Seq<char>>
    decreases ls.len() - i,
{
    if i < 0 || i >= ls.len() {
        Seq::empty()
    } else if is_directive_line(ls[i]) {
        filter_directives_from(ls, i + 1)
    } else {
        seq![ls[i]] + filter_directives_from(ls, i + 1)
    }
}

/// Drops the empty lines from the ranges `lines`.
fn filter_nonempty_ranges(
    v: &Vec<char>,
    lines: &Vec<(usize, usize)>,
    Ghost(lv): Ghost<Seq<Seq<char>>>,
) -> (r: Vec<(usize, usize)>)
    requires
        ranges_match(v@, lines@, lv, 0, v@.len() as int),
    ensures
        ranges_match(v@, r@, filter_nonempty_from(lv, 0), 0, v@.len() as int),
{
    let n = lines.len();
    let mut r: Vec<(usize, usize)> = Vec::new();
    let ghost mut acc: Seq<Seq<char>> = Seq::empty();
    let mut i: usize = 0;
    proof {
        assert(filter_nonempty_from(lv, 0) =~= acc + filter_nonempty_from(lv, 0));
    }
    while i < n
        invariant
            n == lines@.len() == lv.len(),
            i <= n,
            ranges_match(v@, lines@, lv, 0, v@.len() as int),
            ranges_match(v@, r@, acc, 0, v@.len() as int),
            filter_nonempty_from(lv, 0) == acc + filter_nonempty_from(lv, i as int),
        decreases n - i,
    {
        let (a, b) = lines[i];
        proof {
            assert(lv[i as int] == v@.subrange(a as int, b as int));
        }
        if a < b {
            let ghost acc0 = acc;
            let ghost r0 = r@;
            r.push((a, b));
            proof {
                acc = acc.push(lv[i as int]);
                assert(filter_nonempty_from(lv, i as int) =~= seq![lv[i as int]]
                    + filter_nonempty_from(lv, i + 1));
                assert(filter_nonempty_from(lv, 0) =~= acc + filter_nonempty_from(lv, i + 1));
                assert forall|k: int| 0 <= k < r@.len() implies 0 <= (#[trigger] r@[k]).0
                    && r@[k].0 <= r@[k].1 && r@[k].1 <= v@.len() && v@.subrange(
                    r@[k].0 as int,
                    r@[k].1 as int,
                ) == acc[k] by {
                    if k < r0.len() {
                        assert(r@[k] == r0[k] && acc[k] == acc0[k]);
                    }
                }
            }
        }
        i = i + 1;
    }
    r
}

/// Drops the directive lines from the ranges `lines`, starting at `from`.
fn filter_directive_ranges(
    v: &Vec<char>,
    lines: &Vec<(usize, usize)>,
    Ghost(lv): Ghost<Seq<Seq<char>>>,
    from: usize,
) -> (r: Vec<(usize, usize)>)
    requires
        ranges_match(v@, lines@, lv, 0, v@.len() as int),
    ensures
        ranges_match(v@, r@, filter_directives_from(lv, from as int), 0, v@.len() as int),
{
    let n = lines.len();
    let sortv = crate::grammar::sort_marker_vec();
    let maskv = fill_mask_text_vec();
    let mut r: Vec<(usize, usize)> = Vec::new();
    let ghost mut acc: Seq<Seq<char>> = Seq::empty();
    let mut i: usize = from;
    proof {
        assert(filter_directives_from(lv, from as int) =~= acc + filter_directives_from(
            lv,
            from as int,
        ));
    }
    while i < n
        invariant
            n == lines@.len() == lv.len(),
            from <= i,
            ranges_match(v@, lines@, lv, 0, v@.len() as int),
            ranges_match(v@, r@, acc, 0, v@.len() as int),
            filter_directives_from(lv, from as int) == acc + filter_directives_from(lv, i as int),
            sortv@ == sort_marker(),
            maskv@ == fill_mask_text(),
        decreases n - i,
    {
        let (a, b) = lines[i];
        proof {
            assert(lv[i as int] == v@.subrange(a as int, b as int));
        }
        let drop_it = contains_range(v, a, b, &sortv) || contains_range(v, a, b, &maskv);
        if !drop_it {
            let ghost acc0 = acc;
            let ghost r0 = r@;
            r.push((a, b));
            proof {
                acc = acc.push(lv[i as int]);
                assert(filter_directives_from(lv, i as int) =~= seq![lv[i as int]]
                    + filter_directives_from(lv, i + 1));
                assert(filter_directives_from(lv, from as int) =~= acc + filter_directives_from(
                    lv,
                    i + 1,
                ));
                assert forall|k: int| 0 <= k < r@.len() implies 0 <= (#[trigger] r@[k]).0
                    && r@[k].0 <= r@[k].1 && r@[k].1 <= v@.len() && v@.subrange(
                    r@[k].0 as int,
                    r@[k].1 as int,
                ) == acc[k] by {
                    if k < r0.len() {
                        assert(r@[k] == r0[k] && acc[k] == acc0[k]);
                    }
                }
            }
        }
        i = i + 1;
    }
    r
}

/// Decoding a section description: a name at the very start, then optionally
/// an address and a size as the next two whole tokens.
pub open spec fn spec_sect_from_str(j: Seq<char>) -> Option<(Seq<char>, Option<(u64, u64)>)> {
    if j.len() == 0 || !spec_is_name_char(j[0]) {
        None
    } else {
        let name = j.take(name_run(j) as int);
        let ts = spec_tokens(j);
        let pair = if name_run(j) == token_len(j) && ts.len() >= 3 && is_hex_u64_token(ts[1])
            && is_hex_u64_token(ts[2]) {
            Some((hex_token_val(ts[1]) as u64, hex_token_val(ts[2]) as u64))
        } else {
            None
        };
        Some((name, pair))
    }
}

/// A decoded section header: its name, optional address with size, and how
/// many of the leading lines it consumed.
pub struct SectHeadSpec {
    pub name: Seq<char>,
    pub address: Option<u64>,
    pub size: u64,
    pub consumed: int,
}

pub open spec fn pair_address(pr: Option<(u64, u64)>) -> Option<u64> {
    match pr {
        None => None,
        Some((a, s)) => Some(a),
    }
}

pub open spec fn pair_size(pr: Option<(u64, u64)>) -> u64 {
    match pr {
        None => 0,
        Some((a, s)) => s,
    }
}

/// Decoding the section header from the non-blank lines `ls`: the first line
/// is trimmed; a linker directive is rejected; a line without an inner space
/// holds only the name, and the following line (unless it is a sort
/// directive) is joined to it to look for the address and size.
pub open spec fn spec_section_info(ls: Seq<Seq<char>>) -> Option<SectHeadSpec> {
    if ls.len() == 0 {
        None
    } else {
        let h0 = spec_trim(ls[0]);
        if spec_contains(h0, load_marker()) {
            None
        } else if has_space(h0) {
            match spec_sect_from_str(h0) {
                None => None,
                Some((nm, pr)) => Some(
                    SectHeadSpec {
                        name: nm,
                        address: pair_address(pr),
                        size: pair_size(pr),
                        consumed: 1,
                    },
                ),
            }
        } else if ls.len() == 1 {
            Some(SectHeadSpec { name: h0, address: None, size: 0, consumed: 1 })
        } else {
            let joined = if spec_contains(ls[1], sort_marker()) {
                h0
            } else {
                h0 + seq![' '] + ls[1]
            };
            match spec_sect_from_str(joined) {
                None => None,
                Some((nm, pr)) => Some(
                    SectHeadSpec {
                        name: nm,
                        address: pair_address(pr),
                        size: pair_size(pr),
                        consumed: 2,
                    },
                ),
            }
        }
    }
}

/// Prefixes the already emitted records to the remainder of a scan, keeping
/// a failed scan failed.
pub open spec fn opt_prepend(pre: Seq<RecSpec>, rest: Option<Seq<RecSpec>>) -> Option<
    Seq<RecSpec>,
> {
    match rest {
        None => None,
        Some(t) => Some(pre + t),
    }
}

/// The sub-section scan over the lines `ls[i..]` with `cur` the record being
/// built: a fill line merges into the current record (only the first such
/// fill); a line opening with a blank and a name character starts a new
/// record, joined with the following line when it holds only a name; other
/// lines are skipped.  The record under construction is emitted when the
/// next one starts and at the end.  A record line that fails to decode fails
/// the whole scan: there is no partial result with records dropped.
pub open spec fn spec_subs_scan(ls: Seq<Seq<char>>, i: int, cur: Option<RecSpec>) -> Option<
    Seq<RecSpec>,
>
    decreases ls.len() - i,
{
    if i < 0 || i >= ls.len() {
        match cur {
            Some(c) => Some(seq![c]),
            None => Some(Seq::empty()),
        }
    } else {
        let l = ls[i];
        if spec_starts_with(l, fill_marker()) {
            match cur {
                Some(c) => match spec_fill_of_line(l) {
                    Some(f) => if c.fill is None {
                        spec_subs_scan(ls, i + 1, Some(RecSpec { fill: Some(f), ..c }))
                    } else {
                        spec_subs_scan(ls, i + 1, cur)
                    },
                    None => spec_subs_scan(ls, i + 1, cur),
                },
                None => spec_subs_scan(ls, i + 1, cur),
            }
        } else if l.len() >= 2 && crate::lex::is_space_char(l[0]) && spec_is_name_char(l[1]) {
            let t = spec_trim(l);
            let two = !has_space(t) && i + 1 < ls.len();
            let joined = if two {
                t + seq![' '] + ls[i + 1]
            } else {
                t
            };
            let step: int = if two {
                2
            } else {
                1
            };
            let emitted: Seq<RecSpec> = match cur {
                Some(c) => seq![c],
                None => Seq::empty(),
            };
            match spec_sub_from_str(joined) {
                Some(nsub) => opt_prepend(
                    emitted,
                    spec_subs_scan(
                        ls,
                        i + step,
                        Some(
                            RecSpec {
                                name: nsub.0,
                                address: nsub.1,
                                size: nsub.2,
                                library: None,
                                object: None,
                                fill: None,
                                data: Seq::empty(),
                            },
                        ),
                    ),
                ),
                None => None,
            }
        } else {
            spec_subs_scan(ls, i + 1, cur)
        }
    }
}

/// One decoded section: name, optional address, size, and its records.
pub struct SectSpec {
    pub name: Seq<char>,
    pub address: Option<u64>,
    pub size: u64,
    pub subs: Seq<RecSpec>,
}

/// Decoding one section span: the header from the leading non-blank lines,
/// then the sub-section scan over the remaining lines with directive lines
/// dropped.  A failed header rejects the section; a failed record rejects
/// the whole section too — there is no partial-section result.
pub open spec fn spec_parse_section_data(s: Seq<char>) -> Result<SectSpec, ParserError> {
    let ls = filter_nonempty_from(spec_lines(s), 0);
    match spec_section_info(ls) {
        None => Err(ParserError::InvalidMemoryMapSection),
        Some(h) => match spec_subs_scan(filter_directives_from(ls, h.consumed), 0, None) {
            None => Err(ParserError::InvalidMemoryMapSubSection),
            Some(subs) => Ok(
                SectSpec { name: h.name, address: h.address, size: h.size, subs },
            ),
        },
    }
}

/// The sections decoded from the chunks `chunks[i..]`; a chunk that fails to
/// decode yields no section.
pub open spec fn spec_memory_map_sections(chunks: Seq<Seq<char>>, i: int) -> Seq<SectSpec>
    decreases chunks.len() - i,
{
    if i < 0 || i >= chunks.len() {
        Seq::empty()
    } else {
        match spec_parse_section_data(chunks[i]) {
            Ok(m) => seq![m] + spec_memory_map_sections(chunks, i + 1),
            Err(_) => spec_memory_map_sections(chunks, i + 1),
        }
    }
}

/// The section `sec` carries exactly the decoded section `m`.
pub open spec fn sect_matches(sec: Section, m: SectSpec) -> bool {
    &&& sec.name@ == m.name
    &&& sec.address == m.address
    &&& sec.size == m.size
    &&& sec.sub_sections@.len() == m.subs.len()
    &&& forall|i: int|
        0 <= i < m.subs.len() ==> sub_matches(#[trigger] sec.sub_sections@[i], m.subs[i])
}

/// Decodes a section description in `[lo, hi)`: the name range, and the
/// optional address/size pair.
fn sect_from_str_in(v: &Vec<char>, lo: usize, hi: usize) -> (r: Option<
    ((usize, usize), Option<(u64, u64)>),
>)
    requires
        lo <= hi <= v.len(),
    ensures
        ({
            let m = spec_sect_from_str(v@.subrange(lo as int, hi as int));
            match r {
                None => m is None,
                Some((nr, pr)) => {
                    let t = m->0;
                    m is Some && lo <= nr.0 <= nr.1 <= hi && v@.subrange(
                        nr.0 as int,
                        nr.1 as int,
                    ) == t.0 && pr == t.1
                },
            }
        }),
{
    let ghost j = v@.subrange(lo as int, hi as int);
    if lo == hi {
        return None;
    }
    proof {
        assert(j[0] == v@[lo as int]);
    }
    if !is_name_char(v[lo]) {
        return None;
    }
    let ne = scan_name_end(v, lo, hi);
    let te = scan_token_end(v, lo, hi);
    proof {
        assert(j.take(name_run(j) as int) =~= v@.subrange(lo as int, ne as int));
    }
    let ts = tokens_in(v, lo, hi);
    let ghost tsv = spec_tokens(j);
    let pair: Option<(u64, u64)> = if ne == te && ts.len() >= 3 {
        proof {
            assert(tsv[1] == v@.subrange(ts@[1].0 as int, ts@[1].1 as int));
            assert(tsv[2] == v@.subrange(ts@[2].0 as int, ts@[2].1 as int));
        }
        let a = hex_token_value(v, ts[1].0, ts[1].1);
        let s = hex_token_value(v, ts[2].0, ts[2].1);
        match (a, s) {
            (Some(av), Some(sv)) => Some((av, sv)),
            _ => None,
        }
    } else {
        None
    };
    Some(((lo, ne), pair))
}

/// The header lines of a section span: non-blank lines that are not sort
/// directives.
pub open spec fn filter_header_from(ls: Seq<Seq<char>>, i: int) -> Seq<Seq<char>>
    decreases ls.len() - i,
{
    if i < 0 || i >= ls.len() {
        Seq::empty()
    } else if ls[i].len() == 0 || spec_contains(ls[i], sort_marker()) {
        filter_header_from(ls, i + 1)
    } else {
        seq![ls[i]] + filter_header_from(ls, i + 1)
    }
}

/// Keeps the non-blank, non-directive lines of the ranges `lines`.
fn filter_header_ranges(
    v: &Vec<char>,
    lines: &Vec<(usize, usize)>,
    Ghost(lv): Ghost<Seq<Seq<char>>>,
    lo: usize,
    hi: usize,
) -> (r: Vec<(usize, usize)>)
    requires
        lo <= hi <= v.len(),
        ranges_match(v@, lines@, lv, lo as int, hi as int),
    ensures
        ranges_match(v@, r@, filter_header_from(lv, 0), lo as int, hi as int),
{
    let n = lines.len();
    let sortv = crate::grammar::sort_marker_vec();
    let mut r: Vec<(usize, usize)> = Vec::new();
    let ghost mut acc: Seq<Seq<char>> = Seq::empty();
    let mut i: usize = 0;
    proof {
        assert(filter_header_from(lv, 0) =~= acc + filter_header_from(lv, 0));
    }
    while i < n
        invariant
            lo <= hi <= v.len(),
            n == lines@.len() == lv.len(),
            i <= n,
            ranges_match(v@, lines@, lv, lo as int, hi as int),
            ranges_match(v@, r@, acc, lo as int, hi as int),
            filter_header_from(lv, 0) == acc + filter_header_from(lv, i as int),
            sortv@ == sort_marker(),
        decreases n - i,
    {
        let (a, b) = lines[i];
        proof {
            assert(lv[i as int] == v@.subrange(a as int, b as int));
        }
        let keep = a < b && !contains_range(v, a, b, &sortv);
        if keep {
            let ghost acc0 = acc;
            let ghost r0 = r@;
            r.push((a, b));
            proof {
                acc = acc.push(lv[i as int]);
                assert(filter_header_from(lv, i as int) =~= seq![lv[i as int]]
                    + filter_header_from(lv, i + 1));
                assert(filter_header_from(lv, 0) =~= acc + filter_header_from(lv, i + 1));
                assert forall|k: int| 0 <= k < r@.len() implies lo <= (#[trigger] r@[k]).0
                    && r@[k].0 <= r@[k].1 && r@[k].1 <= hi && v@.subrange(
                    r@[k].0 as int,
                    r@[k].1 as int,
                ) == acc[k] by {
                    if k < r0.len() {
                        assert(r@[k] == r0[k] && acc[k] == acc0[k]);
                    }
                }
            }
        } else {
            proof {
                assert(filter_header_from(lv, i as int) == filter_header_from(lv, i + 1));
            }
        }
        i = i + 1;
    }
    r
}

/// The sub-sections decoded from the ranges `rs[i..]`; `None` as soon as any
/// one range fails to decode.
pub open spec fn spec_collect_subs(s: Seq<char>, rs: Seq<(int, int)>, i: int) -> Option<
    Seq<RecSpec>,
>
    decreases rs.len() - i,
{
    if i < 0 || i >= rs.len() {
        Some(Seq::empty())
    } else {
        match crate::grammar::spec_decode_subsection(s.subrange(rs[i].0, rs[i].1)) {
            None => None,
            Some(m) => match spec_collect_subs(s, rs, i + 1) {
                None => None,
                Some(t) => Some(seq![m] + t),
            },
        }
    }
}

/// Decoding one section span by block ranges: the header from the first
/// range's surviving lines, then one sub-section per later range.  One record
/// range that fails to decode fails the whole section.
pub open spec fn spec_section_parser(s: Seq<char>) -> Result<SectSpec, ParserError> {
    if crate::grammar::spec_blank_text(s) || !crate::driver::split_head_ok(s) {
        Err(ParserError::InvalidMemoryMapSection)
    } else {
        let rs = crate::driver::spec_split_segment(s);
        let h = s.subrange(rs[0].0, rs[0].1);
        let hls = filter_header_from(spec_lines(h), 0);
        if hls.len() == 0 {
            Err(ParserError::InvalidMemoryMapSection)
        } else {
            let l0 = crate::lex::spec_rtrim(hls[0]);
            if spec_contains(l0, load_marker()) {
                Err(ParserError::InvalidMemoryMapSection)
            } else if l0.len() == 0 || !spec_is_name_char(l0[0]) {
                Err(ParserError::InvalidMemoryMapSection)
            } else {
                let name = l0.take(name_run(l0) as int);
                if name_run(l0) == l0.len() && hls.len() == 1 {
                    Ok(SectSpec { name, address: None, size: 0, subs: Seq::empty() })
                } else {
                    let pr = if name_run(l0) == l0.len() {
                        crate::grammar::spec_hex_pair_of_line(hls[1])
                    } else {
                        crate::grammar::spec_hex_pair_of_line(l0)
                    };
                    match spec_collect_subs(s, rs, 1) {
                        None => Err(ParserError::InvalidMemoryMapSubSection),
                        Some(subs) => Ok(
                            SectSpec {
                                name,
                                address: pair_address(pr),
                                size: pair_size(pr),
                                subs,
                            },
                        ),
                    }
                }
            }
        }
    }
}

proof fn lemma_collect_subs_all(s: Seq<char>, rs: Seq<(int, int)>, i: int)
    requires
        0 <= i <= rs.len(),
        forall|j: int|
            i <= j < rs.len() ==> crate::grammar::spec_decode_subsection(
                s.subrange((#[trigger] rs[j]).0, rs[j].1),
            ) is Some,
    ensures
        spec_collect_subs(s, rs, i) is Some,
        (spec_collect_subs(s, rs, i)->0).len() == rs.len() - i,
        forall|j: int|
            i <= j < rs.len() ==> (spec_collect_subs(s, rs, i)->0)[j - i]
                == crate::grammar::spec_decode_subsection(
                s.subrange((#[trigger] rs[j]).0, rs[j].1),
            )->0,
    decreases rs.len() - i,
{
    if i < rs.len() {
        lemma_collect_subs_all(s, rs, i + 1);
    }
}

proof fn lemma_collect_subs_fail(s: Seq<char>, rs: Seq<(int, int)>, i: int, f: int)
    requires
        0 <= i <= f < rs.len(),
        crate::grammar::spec_decode_subsection(s.subrange(rs[f].0, rs[f].1)) is None,
    ensures
        spec_collect_subs(s, rs, i) is None,
    decreases f - i,
{
    if i < f {
        lemma_collect_subs_fail(s, rs, i + 1, f);
    }
}

/// Scans the lines `rest` for sub-section records, appending the decoded
/// records to `out` in order.  Returns false, leaving `out` meaningless, as
/// soon as one record line fails to decode.
#[verifier::rlimit(100)]
#[verifier::spinoff_prover]
fn scan_sub_sections(
    data: &str,
    v: &Vec<char>,
    rest: &Vec<(usize, usize)>,
    Ghost(rlv): Ghost<Seq<Seq<char>>>,
    out: &mut Vec<SubSection>,
) -> (ok: bool)
    requires
        v@ == data@,
        ranges_match(v@, rest@, rlv, 0, v@.len() as int),
    ensures
        ({
            match spec_subs_scan(rlv, 0, None) {
                None => !ok,
                Some(subs) => {
                    &&& ok
                    &&& final(out)@.len() == old(out)@.len() + subs.len()
                    &&& forall|k: int| 0 <= k < old(out)@.len() ==> final(out)@[k] == old(out)@[k]
                    &&& forall|k: int|
                        0 <= k < subs.len() ==> sub_matches(
                            #[trigger] final(out)@[old(out)@.len() + k],
                            subs[k],
                        )
                },
            }
        }),
{
    let n = rest.len();
    let fillv = crate::grammar::fill_marker_vec();
    let mut cur: Option<SubSection> = None;
    let mut cur_filled: bool = false;
    let ghost mut cur_model: Option<RecSpec> = None;
    let ghost mut emitted: Seq<RecSpec> = Seq::empty();
    let ghost subs = spec_subs_scan(rlv, 0, None);
    let mut i: usize = 0;
    proof {
        if subs is Some {
            assert(subs->0 =~= emitted + subs->0);
        }
        assert(subs == opt_prepend(emitted, spec_subs_scan(rlv, 0, None)));
    }
    while i < n
        invariant
            v@ == data@,
            n == rest@.len() == rlv.len(),
            i <= n,
            ranges_match(v@, rest@, rlv, 0, v@.len() as int),
            fillv@ == fill_marker(),
            subs == spec_subs_scan(rlv, 0, None),
            subs == opt_prepend(emitted, spec_subs_scan(rlv, i as int, cur_model)),
            out@.len() == old(out)@.len() + emitted.len(),
            forall|k: int| 0 <= k < old(out)@.len() ==> out@[k] == old(out)@[k],
            forall|k: int|
                0 <= k < emitted.len() ==> sub_matches(
                    #[trigger] out@[old(out)@.len() + k],
                    emitted[k],
                ),
            match cur {
                Some(c) => cur_model is Some && sub_matches(c, cur_model->0) && cur_filled == (
                cur_model->0.fill is Some),
                None => cur_model is None,
            },
        decreases n - i,
    {
        let (a, b) = rest[i];
        let ghost l = rlv[i as int];
        proof {
            assert(l == v@.subrange(a as int, b as int));
        }
        if starts_with_range(v, a, b, &fillv) {
            match crate::grammar::fill_of_line(v, a, b) {
                Some((fa, fs)) => {
                    if !cur_filled {
                        cur = match cur {
                            Some(mut c) => {
                                c.set_fill(fa, fs);
                                proof {
                                    if cur_model is Some {
                                        cur_model = Some(
                                            RecSpec { fill: Some((fa, fs)), ..cur_model->0 },
                                        );
                                    }
                                }
                                cur_filled = true;
                                Some(c)
                            },
                            None => None,
                        };
                    }
                },
                None => {},
            }
            proof {
                assert(subs == opt_prepend(emitted, spec_subs_scan(rlv, i + 1, cur_model)));
            }
            i = i + 1;
        } else {
            let mut is_rec = false;
            if b - a >= 2 {
                if crate::lex::space_char(v[a]) {
                    if is_name_char(v[a + 1]) {
                        is_rec = true;
                    }
                }
            }
            proof {
                if l.len() >= 2 {
                    assert(l[0] == v@[a as int]);
                    assert(l[1] == v@[a + 1 as int]);
                }
            }
            if !is_rec {
                proof {
                    assert(subs == opt_prepend(emitted, spec_subs_scan(rlv, i + 1, cur_model)));
                }
                i = i + 1;
            } else {
                let (ta2, tb2) = trim_in(v, a, b);
                let ghost t = spec_trim(l);
                let two = !has_space_in(v, ta2, tb2) && i + 1 < n;
                let parsed: Result<SubSection, ParserError>;
                let ghost joined: Seq<char>;
                if two {
                    let (c1, c2) = rest[i + 1];
                    proof {
                        assert(rlv[i + 1] == v@.subrange(c1 as int, c2 as int));
                    }
                    let mut j = String::from_str(data.substring_char(ta2, tb2));
                    j.append(" ");
                    j.append(data.substring_char(c1, c2));
                    proof {
                        reveal_strlit(" ");
                        assert(" "@ =~= seq![' ']);
                        joined = t + seq![' '] + rlv[i + 1];
                        assert(j@ =~= joined);
                    }
                    parsed = SubSection::from_str(j.as_str());
                } else {
                    proof {
                        joined = t;
                    }
                    let j = data.substring_char(ta2, tb2);
                    parsed = SubSection::from_str(j);
                }
                let ghost step: int = if two {
                    2
                } else {
                    1
                };
                let ghost em2: Seq<RecSpec> = match cur_model {
                    Some(c) => seq![c],
                    None => Seq::empty(),
                };
                let ss = match parsed {
                    Ok(ss) => ss,
                    Err(_) => {
                        proof {
                            assert(spec_subs_scan(rlv, i as int, cur_model) is None);
                            assert(subs is None);
                        }
                        return false;
                    },
                };
                match cur {
                    Some(c) => {
                        out.push(c);
                    },
                    None => {},
                }
                proof {
                    let emitted0 = emitted;
                    let cur_model0 = cur_model;
                    emitted = emitted + em2;
                    let nsub = spec_sub_from_str(joined)->0;
                    cur_model = Some(
                        RecSpec {
                            name: nsub.0,
                            address: nsub.1,
                            size: nsub.2,
                            library: None,
                            object: None,
                            fill: None,
                            data: Seq::empty(),
                        },
                    );
                    let rest_scan = spec_subs_scan(rlv, i as int + step, cur_model);
                    assert(spec_subs_scan(rlv, i as int, cur_model0) == opt_prepend(
                        em2,
                        rest_scan,
                    ));
                    if rest_scan is Some {
                        assert(emitted0 + (em2 + rest_scan->0) =~= emitted + rest_scan->0);
                    }
                    assert(subs == opt_prepend(emitted, rest_scan));
                }
                cur = Some(ss);
                cur_filled = false;
                if two {
                    i = i + 2;
                } else {
                    i = i + 1;
                }
            }
        }
    }
    let ghost em2: Seq<RecSpec> = match cur_model {
        Some(c) => seq![c],
        None => Seq::empty(),
    };
    match cur {
        Some(c) => {
            out.push(c);
        },
        None => {},
    }
    proof {
        emitted = emitted + em2;
        assert(spec_subs_scan(rlv, n as int, cur_model) == Some(em2)) by {
            if cur_model is Some {
                assert(spec_subs_scan(rlv, n as int, cur_model) == Some(seq![cur_model->0]));
            }
        }
        assert(subs is Some && subs->0 =~= emitted);
    }
    true
}

impl Section {
    /// Creates a section with no address, size zero and no records.
    pub fn new(name: String) -> (r: Section)
        ensures
            r.name == name,
            r.address is None,
            r.size == 0,
            r.sub_sections@ == Seq::<SubSection>::empty(),
    {
        Section { name, address: None, size: 0, sub_sections: Vec::new() }
    }

    /// Decodes one fill line: its address and size.
    pub fn parse_fill_data(data: &str) -> (r: Option<(u64, u64)>)
        ensures
            r == spec_fill_of_line(data@),
    {
        let v = chars_of(data);
        let n = v.len();
        proof {
            assert(v@.subrange(0, n as int) =~= v@);
        }
        crate::grammar::fill_of_line(&v, 0, n)
    }

    /// Decodes the section header from the leading non-blank line ranges:
    /// the name, the optional address/size pair, and how many of those lines
    /// the header consumed.
    #[verifier::rlimit(100)]
    #[verifier::spinoff_prover]
    fn section_head_in(
        data: &str,
        v: &Vec<char>,
        nl: &Vec<(usize, usize)>,
        Ghost(flv): Ghost<Seq<Seq<char>>>,
    ) -> (r: Result<(Section, usize), ParserError>)
        requires
            v@ == data@,
            ranges_match(v@, nl@, flv, 0, v@.len() as int),
        ensures
            ({
                let h = spec_section_info(flv);
                match r {
                    Ok(p) => {
                        let hh = h->0;
                        &&& h is Some
                        &&& p.0.name@ == hh.name
                        &&& p.0.address == hh.address
                        &&& p.0.size == hh.size
                        &&& p.0.sub_sections@.len() == 0
                        &&& p.1 as int == hh.consumed
                    },
                    Err(e) => h is None && e == ParserError::InvalidMemoryMapSection,
                }
            }),
    {
        if nl.len() == 0 {
            return Err(ParserError::InvalidMemoryMapSection);
        }
        let (h0lo, h0hi) = nl[0];
        proof {
            assert(flv[0] == v@.subrange(h0lo as int, h0hi as int));
        }
        let (ta, tb) = trim_in(v, h0lo, h0hi);
        let ghost h0 = spec_trim(flv[0]);
        proof {
            assert(h0 == v@.subrange(ta as int, tb as int));
        }
        let loadv = crate::grammar::load_marker_vec();
        if contains_range(v, ta, tb, &loadv) {
            return Err(ParserError::InvalidMemoryMapSection);
        }
        let mut sec: Section;
        let consumed: usize;
        if has_space_in(v, ta, tb) {
            match sect_from_str_in(v, ta, tb) {
                None => {
                    return Err(ParserError::InvalidMemoryMapSection);
                },
                Some(((na, nb), pr)) => {
                    let name_s = String::from_str(data.substring_char(na, nb));
                    sec = Section::new(name_s);
                    match pr {
                        Some((a, s)) => {
                            sec.address = Some(a);
                            sec.size = s;
                        },
                        None => {},
                    }
                    consumed = 1;
                },
            }
        } else if nl.len() == 1 {
            let name_s = String::from_str(data.substring_char(ta, tb));
            sec = Section::new(name_s);
            consumed = 1;
        } else {
            let (l1lo, l1hi) = nl[1];
            proof {
                assert(flv[1] == v@.subrange(l1lo as int, l1hi as int));
            }
            let sortv = crate::grammar::sort_marker_vec();
            if contains_range(v, l1lo, l1hi, &sortv) {
                match sect_from_str_in(v, ta, tb) {
                    None => {
                        return Err(ParserError::InvalidMemoryMapSection);
                    },
                    Some(((na, nb), pr)) => {
                        let name_s = String::from_str(data.substring_char(na, nb));
                        sec = Section::new(name_s);
                        match pr {
                            Some((a, s)) => {
                                sec.address = Some(a);
                                sec.size = s;
                            },
                            None => {},
                        }
                        consumed = 2;
                    },
                }
            } else {
                let mut j = String::from_str(data.substring_char(ta, tb));
                j.append(" ");
                j.append(data.substring_char(l1lo, l1hi));
                let ghost joined = h0 + seq![' '] + flv[1];
                proof {
                    reveal_strlit(" ");
                    assert(" "@ =~= seq![' ']);
                    assert(j@ =~= joined);
                }
                let jv = chars_of(j.as_str());
                let jn = jv.len();
                proof {
                    assert(jv@.subrange(0, jn as int) =~= jv@);
                }
                match sect_from_str_in(&jv, 0, jn) {
                    None => {
                        return Err(ParserError::InvalidMemoryMapSection);
                    },
                    Some(((na, nb), pr)) => {
                        let name_s = String::from_str(j.as_str().substring_char(na, nb));
                        sec = Section::new(name_s);
                        match pr {
                            Some((a, s)) => {
                                sec.address = Some(a);
                                sec.size = s;
                            },
                            None => {},
                        }
                        consumed = 2;
                    },
                }
            }
        }
        Ok((sec, consumed))
    }

    /// Decodes one section span: the header from the leading non-blank lines,
    /// then the sub-section records, with directive lines skipped.  One
    /// record that fails to decode fails the whole section.
    #[verifier::rlimit(100)]
    #[verifier::spinoff_prover]
    pub fn parse_section_data(data: &str) -> (r: Result<Section, ParserError>)
        ensures
            ({
                let m = spec_parse_section_data(data@);
                match r {
                    Ok(sec) => m is Ok && sect_matches(sec, m->Ok_0),
                    Err(e) => m is Err && e == m->Err_0,
                }
            }),
    {
        let v = chars_of(data);
        let n = v.len();
        proof {
            assert(v@.subrange(0, n as int) =~= v@);
        }
        let all_lines = split_lines(&v, 0, n);
        let ghost lv0 = spec_lines(v@);
        let nl = filter_nonempty_ranges(&v, &all_lines, Ghost(lv0));
        let ghost flv = filter_nonempty_from(lv0, 0);
        let (mut sec, consumed) = match Section::section_head_in(data, &v, &nl, Ghost(flv)) {
            Err(e) => {
                return Err(e);
            },
            Ok(p) => p,
        };
        let rest = filter_directive_ranges(&v, &nl, Ghost(flv), consumed);
        let ghost rlv = filter_directives_from(flv, consumed as int);
        let ghost sec0 = sec;
        let ok = scan_sub_sections(data, &v, &rest, Ghost(rlv), &mut sec.sub_sections);
        if !ok {
            return Err(ParserError::InvalidMemoryMapSubSection);
        }
        proof {
            let m = spec_parse_section_data(data@);
            assert(spec_subs_scan(rlv, 0, None) is Some);
            let subs = spec_subs_scan(rlv, 0, None)->0;
            assert(sec0.sub_sections@.len() == 0);
            assert(m is Ok);
            assert(m->Ok_0.subs == subs);
            assert(sec.name == sec0.name && sec.address == sec0.address && sec.size == sec0.size);
            assert forall|k: int| 0 <= k < subs.len() implies sub_matches(
                #[trigger] sec.sub_sections@[k],
                subs[k],
            ) by {
                assert(sub_matches(sec.sub_sections@[sec0.sub_sections@.len() + k], subs[k]));
            }
            assert(sect_matches(sec, m->Ok_0));
        }
        Ok(sec)
    }

    /// Decodes one section span from its block ranges: the header from the
    /// first range, then one sub-section per record range.  One record range
    /// that fails to decode fails the whole section.
    #[verifier::rlimit(100)]
    #[verifier::spinoff_prover]
    pub fn parser(data: &str) -> (r: Result<Section, ParserError>)
        ensures
            ({
                let m = spec_section_parser(data@);
                match r {
                    Ok(sec) => m is Ok && sect_matches(sec, m->Ok_0),
                    Err(e) => m is Err && e == m->Err_0,
                }
            }),
    {
        let v = chars_of(data);
        let n = v.len();
        if crate::grammar::blank_text(&v) {
            return Err(ParserError::InvalidMemoryMapSection);
        }
        proof {
            if v@.len() == 0 {
                assert(crate::grammar::spec_blank_text(v@));
            }
            assert(v@.subrange(0, n as int) =~= v@);
        }
        let e0 = crate::lex::scan_line_end(&v, 0, n);
        let ghost line0 = v@.subrange(0, e0 as int);
        proof {
            assert(crate::lex::line_len(v@) == e0);
            assert(data@.take(crate::lex::line_len(data@) as int) =~= line0);
        }
        let sortv = crate::grammar::sort_split_marker_vec();
        let fillv = crate::grammar::fill_marker_vec();
        let maskv = crate::grammar::fill_mask_marker_vec();
        let noise0 = contains_range(&v, 0, e0, &sortv) || e0 == 0 || starts_with_range(
            &v,
            0,
            e0,
            &fillv,
        ) || starts_with_range(&v, 0, e0, &maskv);
        proof {
            assert(noise0 == crate::grammar::spec_noise_line(line0));
        }
        let mut starts0 = false;
        if !noise0 {
            if e0 >= 2 {
                if v[0] == ' ' {
                    if crate::grammar::is_start_char(v[1]) {
                        starts0 = true;
                    }
                }
            }
            proof {
                if line0.len() >= 2 {
                    assert(line0[0] == v@[0]);
                    assert(line0[1] == v@[1]);
                }
                assert(starts0 == crate::grammar::spec_entry_start(line0));
            }
        }
        if !noise0 && starts0 {
            proof {
                assert(!crate::driver::split_head_ok(data@));
            }
            return Err(ParserError::InvalidMemoryMapSection);
        }
        proof {
            assert(crate::driver::split_head_ok(data@));
        }
        let ranges = crate::driver::Parser::split_segment(data);
        let ghost rsv = crate::driver::spec_split_segment(data@);
        let (h0, h1) = ranges[0];
        proof {
            assert(crate::driver::range_views(ranges@)[0] == rsv[0]);
        }
        let hlines = split_lines(&v, h0, h1);
        let ghost hlv = spec_lines(v@.subrange(h0 as int, h1 as int));
        let hf = filter_header_ranges(&v, &hlines, Ghost(hlv), h0, h1);
        let ghost hflv = filter_header_from(hlv, 0);
        if hf.len() == 0 {
            return Err(ParserError::InvalidMemoryMapSection);
        }
        let (f0a, f0b) = hf[0];
        proof {
            assert(hflv[0] == v@.subrange(f0a as int, f0b as int));
        }
        let tb = crate::lex::rtrim_in(&v, f0a, f0b);
        let ghost l0 = crate::lex::spec_rtrim(hflv[0]);
        proof {
            assert(l0 == v@.subrange(f0a as int, tb as int));
        }
        let loadv = crate::grammar::load_marker_vec();
        if contains_range(&v, f0a, tb, &loadv) {
            return Err(ParserError::InvalidMemoryMapSection);
        }
        if f0a == tb {
            return Err(ParserError::InvalidMemoryMapSection);
        }
        proof {
            assert(l0[0] == v@[f0a as int]);
        }
        if !is_name_char(v[f0a]) {
            return Err(ParserError::InvalidMemoryMapSection);
        }
        let ne = scan_name_end(&v, f0a, tb);
        proof {
            assert(l0.take(name_run(l0) as int) =~= v@.subrange(f0a as int, ne as int));
        }
        let name_s = String::from_str(data.substring_char(f0a, ne));
        let mut sec = Section::new(name_s);
        if ne == tb {
            if hf.len() == 1 {
                return Ok(sec);
            }
            let (f1a, f1b) = hf[1];
            proof {
                assert(hflv[1] == v@.subrange(f1a as int, f1b as int));
            }
            match crate::grammar::hex_pair_in_line(&v, f1a, f1b) {
                Some((a, s)) => {
                    sec.address = Some(a);
                    sec.size = s;
                },
                None => {},
            }
        } else {
            match crate::grammar::hex_pair_in_line(&v, f0a, tb) {
                Some((a, s)) => {
                    sec.address = Some(a);
                    sec.size = s;
                },
                None => {},
            }
        }
        let ghost sec0 = sec;
        let m = ranges.len();
        let mut i: usize = 1;
        proof {
            assert(spec_collect_subs(data@, rsv, 1) is None ==> spec_section_parser(data@) == Err::<
                SectSpec,
                ParserError,
            >(ParserError::InvalidMemoryMapSubSection));
        }
        while i < m
            invariant
                v@ == data@,
                m == ranges@.len(),
                1 <= i <= m,
                rsv == crate::driver::spec_split_segment(data@),
                crate::driver::range_views(ranges@) == rsv,
                forall|k: int|
                    0 <= k < m ==> (#[trigger] ranges@[k]).0 <= ranges@[k].1 <= data@.len(),
                spec_collect_subs(data@, rsv, 1) is None ==> spec_section_parser(data@) == Err::<
                    SectSpec,
                    ParserError,
                >(ParserError::InvalidMemoryMapSubSection),
                sec.name == sec0.name,
                sec.address == sec0.address,
                sec.size == sec0.size,
                sec.sub_sections@.len() == i - 1,
                forall|j: int|
                    1 <= j < i ==> crate::grammar::spec_decode_subsection(
                        data@.subrange((#[trigger] rsv[j]).0, rsv[j].1),
                    ) is Some && sub_matches(
                        sec.sub_sections@[j - 1],
                        crate::grammar::spec_decode_subsection(
                            data@.subrange(rsv[j].0, rsv[j].1),
                        )->0,
                    ),
            decreases m - i,
        {
            let (a, b) = ranges[i];
            proof {
                assert(crate::driver::range_views(ranges@)[i as int] == rsv[i as int]);
            }
            let sub_str = data.substring_char(a, b);
            match SubSection::parse(sub_str) {
                Ok(ss) => {
                    sec.sub_sections.push(ss);
                },
                Err(_) => {
                    proof {
                        lemma_collect_subs_fail(data@, rsv, 1, i as int);
                    }
                    return Err(ParserError::InvalidMemoryMapSubSection);
                },
            }
            i = i + 1;
        }
        proof {
            if rsv.len() > 1 {
                lemma_collect_subs_all(data@, rsv, 1);
            } else {
                assert(spec_collect_subs(data@, rsv, 1) == Some(Seq::<RecSpec>::empty()));
            }
            assert(spec_collect_subs(data@, rsv, 1) is Some);
            let subs = spec_collect_subs(data@, rsv, 1)->0;
            assert(subs.len() == rsv.len() - 1);
            assert forall|j: int| 0 <= j < subs.len() implies sub_matches(
                #[trigger] sec.sub_sections@[j],
                subs[j],
            ) by {
                assert(subs[j] == crate::grammar::spec_decode_subsection(
                    data@.subrange(rsv[j + 1].0, rsv[j + 1].1),
                )->0);
                assert(sub_matches(
                    sec.sub_sections@[j],
                    crate::grammar::spec_decode_subsection(
                        data@.subrange(rsv[j + 1].0, rsv[j + 1].1),
                    )->0,
                ));
            }
            assert(spec_section_parser(data@) is Ok);
            assert(sect_matches(sec, spec_section_parser(data@)->Ok_0));
        }
        Ok(sec)
    }

    /// Decodes only the header of one section span: the name and the optional
    /// address/size pair, leaving the records aside.
    pub fn parse_section_info(data: &str) -> (r: Result<Section, ParserError>)
        ensures
            ({
                let h = spec_section_info(filter_nonempty_from(spec_lines(data@), 0));
                match r {
                    Ok(sec) => {
                        let hh = h->0;
                        h is Some && sec.name@ == hh.name && sec.address == hh.address && sec.size
                            == hh.size && sec.sub_sections@.len() == 0
                    },
                    Err(e) => h is None && e == ParserError::InvalidMemoryMapSection,
                }
            }),
    {
        let v = chars_of(data);
        let n = v.len();
        proof {
            assert(v@.subrange(0, n as int) =~= v@);
        }
        let all_lines = split_lines(&v, 0, n);
        let ghost lv0 = spec_lines(v@);
        let nl = filter_nonempty_ranges(&v, &all_lines, Ghost(lv0));
        let ghost flv = filter_nonempty_from(lv0, 0);
        match Section::section_head_in(data, &v, &nl, Ghost(flv)) {
            Ok((sec, _)) => Ok(sec),
            Err(e) => Err(e),
        }
    }

    /// Sum of the records' effective sizes under same-address coalescing.
    pub fn get_sub_sections_total_size(&self) -> (r: u64)
        ensures
            r == sub_coalesced_total(self.sub_sections@),
    {
        let n = self.sub_sections.len();
        if n == 0 {
            return 0;
        }
        let mut last_address: u64 = self.sub_sections[0].get_address();
        let mut last_size: u64 = self.sub_sections[0].get_size();
        let mut sum: u64 = 0;
        let mut i: usize = 1;
        while i < n
            invariant
                1 <= i <= n == self.sub_sections@.len(),
                sub_walk_total(self.sub_sections@, i as int, last_address, last_size, sum)
                    == sub_coalesced_total(self.sub_sections@),
            decreases n - i,
        {
            let s = &self.sub_sections[i];
            if last_address == s.get_address() {
                last_size = s.get_size();
            } else {
                sum = add_sizes(sum, last_size);
                last_size = s.get_size();
                last_address = s.get_address();
            }
            i = i + 1;
        }
        add_sizes(sum, last_size)
    }
}

} // verus!
