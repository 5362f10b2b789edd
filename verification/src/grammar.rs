//! The record grammar: how names, hexadecimal address/size pairs, provenance
//! and fill lines are recognized within the lines of a span.  The
//! specification functions here are the reference grammar; the executable
//! matchers are verified against them.

use vstd::prelude::*;
use vstd::string::{StrSliceExecFns, StringExecFns};

use crate::lex::{
    all_spaces_from, hex_token_val, is_hex_u64_token, is_space_char, name_run, spec_contains,
    spec_is_name_char, spec_starts_with, spec_tokens, spec_lines,
    hex_token_value, is_name_char, option_view, scan_name_end, space_char, tokens_in,
    ranges_match, is_name_token, lemma_line_len_at, lemma_name_run_at, lemma_token_len_at,
};

verus! {

/// The marker of alignment/sort directive lines, as the section-granularity
/// line filters look for it.
pub open spec fn sort_marker() -> Seq<char> {
    seq!['S', 'O', 'R', 'T', '_', 'B', 'Y']
}

/// The opening of an alignment/sort directive, as the block splitter looks
/// for it when it decides that a line never starts a record.
pub open spec fn sort_split_marker() -> Seq<char> {
    seq!['(', 'S', 'O', 'R', 'T', '_', 'B', 'Y', '_']
}

/// The start of a fill line.
pub open spec fn fill_marker() -> Seq<char> {
    seq![' ', '*', 'f', 'i', 'l', 'l', '*']
}

/// The start of a fill-mask directive line.
pub open spec fn fill_mask_marker() -> Seq<char> {
    seq![' ', 'F', 'I', 'L', 'L']
}

/// The linker directive marker that disqualifies a header line.
pub open spec fn load_marker() -> Seq<char> {
    seq!['L', 'O', 'A', 'D']
}

/// Provenance decoded from one token: `library(object)` when the token has
/// that shape, otherwise the bare object name at its head.
pub open spec fn spec_prov(t: Seq<char>) -> Option<(Option<Seq<char>>, Seq<char>)> {
    let m = name_run(t) as int;
    if m == 0 {
        None
    } else if m < t.len() && t[m] == '(' && name_run(t.skip(m + 1)) >= 1 && m + 1 + name_run(
        t.skip(m + 1),
    ) < t.len() && t[m + 1 + name_run(t.skip(m + 1)) as int] == ')' {
        Some((Some(t.take(m)), t.subrange(m + 1, m + 1 + name_run(t.skip(m + 1)))))
    } else {
        Some((None, t.take(m)))
    }
}

/// One decoded info match: address, size and provenance.
pub struct InfoSpec {
    pub address: u64,
    pub size: u64,
    pub library: Option<Seq<char>>,
    pub object: Seq<char>,
}

/// Tokens `i`, `i+1`, `i+2` are an address, a size, and a provenance token.
pub open spec fn entry_info_at(ts: Seq<Seq<char>>, i: int) -> bool {
    &&& 0 <= i
    &&& i + 3 <= ts.len()
    &&& is_hex_u64_token(ts[i])
    &&& is_hex_u64_token(ts[i + 1])
    &&& ts[i + 2].len() > 0
    &&& spec_is_name_char(ts[i + 2][0])
}

/// First position at or after `i` where an entry info match starts.
pub open spec fn first_entry_info(ts: Seq<Seq<char>>, i: int) -> Option<int>
    decreases ts.len() - i,
{
    if i < 0 || i + 3 > ts.len() {
        None
    } else if entry_info_at(ts, i) {
        Some(i)
    } else {
        first_entry_info(ts, i + 1)
    }
}

/// Tokens `i` and `i+1` are both hexadecimal numbers.
pub open spec fn hex_pair_at(ts: Seq<Seq<char>>, i: int) -> bool {
    &&& 0 <= i
    &&& i + 2 <= ts.len()
    &&& is_hex_u64_token(ts[i])
    &&& is_hex_u64_token(ts[i + 1])
}

/// First position at or after `i` where a hexadecimal pair starts.
pub open spec fn first_hex_pair(ts: Seq<Seq<char>>, i: int) -> Option<int>
    decreases ts.len() - i,
{
    if i < 0 || i + 2 > ts.len() {
        None
    } else if hex_pair_at(ts, i) {
        Some(i)
    } else {
        first_hex_pair(ts, i + 1)
    }
}

/// First token position a match may start at: a token at the very start of
/// the line cannot open a match, because the patterns demand blank space
/// before the address.
pub open spec fn match_start(line: Seq<char>) -> int {
    if line.len() > 0 && !is_space_char(line[0]) {
        1
    } else {
        0
    }
}

/// The entry info match of one line, if any.
pub open spec fn spec_entry_info_of_line(line: Seq<char>) -> Option<InfoSpec> {
    let ts = spec_tokens(line);
    match first_entry_info(ts, match_start(line)) {
        None => None,
        Some(i) => match spec_prov(ts[i + 2]) {
            None => None,
            Some(p) => Some(
                InfoSpec {
                    address: hex_token_val(ts[i]) as u64,
                    size: hex_token_val(ts[i + 1]) as u64,
                    library: p.0,
                    object: p.1,
                },
            ),
        },
    }
}

/// The hexadecimal pair match of one line, if any.
pub open spec fn spec_hex_pair_of_line(line: Seq<char>) -> Option<(u64, u64)> {
    let ts = spec_tokens(line);
    match first_hex_pair(ts, match_start(line)) {
        None => None,
        Some(i) => Some((hex_token_val(ts[i]) as u64, hex_token_val(ts[i + 1]) as u64)),
    }
}

/// First line at or after `j` with an entry info match, with its match.
pub open spec fn spec_find_entry_info(lines: Seq<Seq<char>>, j: int) -> Option<(int, InfoSpec)>
    decreases lines.len() - j,
{
    if j < 0 || j >= lines.len() {
        None
    } else {
        match spec_entry_info_of_line(lines[j]) {
            Some(info) => Some((j, info)),
            None => spec_find_entry_info(lines, j + 1),
        }
    }
}

/// First hexadecimal pair found scanning the lines at or after `j`.
pub open spec fn spec_find_hex_pair(lines: Seq<Seq<char>>, j: int) -> Option<(u64, u64)>
    decreases lines.len() - j,
{
    if j < 0 || j >= lines.len() {
        None
    } else {
        match spec_hex_pair_of_line(lines[j]) {
            Some(p) => Some(p),
            None => spec_find_hex_pair(lines, j + 1),
        }
    }
}

/// A fill line: one space, the fill marker, blank space, then an address and
/// a size as whole hexadecimal tokens.
pub open spec fn spec_fill_of_line(line: Seq<char>) -> Option<(u64, u64)> {
    if line.len() >= 8 && spec_starts_with(line, fill_marker()) && is_space_char(line[7]) {
        let ts = spec_tokens(line.skip(7));
        if ts.len() >= 2 && is_hex_u64_token(ts[0]) && is_hex_u64_token(ts[1]) {
            Some((hex_token_val(ts[0]) as u64, hex_token_val(ts[1]) as u64))
        } else {
            None
        }
    } else {
        None
    }
}

/// First fill line at or after `j`.
pub open spec fn spec_find_fill(lines: Seq<Seq<char>>, j: int) -> Option<(u64, u64)>
    decreases lines.len() - j,
{
    if j < 0 || j >= lines.len() {
        None
    } else {
        match spec_fill_of_line(lines[j]) {
            Some(f) => Some(f),
            None => spec_find_fill(lines, j + 1),
        }
    }
}

/// The record name of a span's first line: exactly one leading space, then a
/// maximal run of name characters.
pub open spec fn spec_rec_name(line: Seq<char>) -> Option<Seq<char>> {
    if line.len() >= 2 && line[0] == ' ' && spec_is_name_char(line[1]) {
        Some(line.subrange(1, 1 + name_run(line.skip(1)) as int))
    } else {
        None
    }
}

/// A name anchored at the very start of the line (segment headers).
pub open spec fn spec_head_name(line: Seq<char>) -> Option<Seq<char>> {
    if line.len() >= 1 && spec_is_name_char(line[0]) {
        Some(line.take(name_run(line) as int))
    } else {
        None
    }
}

/// Whether the name on this line is followed by nothing but blanks, so that
/// the record's data continues on the next line.
pub open spec fn name_only_line(line: Seq<char>) -> bool {
    all_spaces_from(line, 1 + name_run(line.skip(1)) as int)
}

/// One whole decoded record, together with the span it was decoded from.
pub struct RecSpec {
    pub name: Seq<char>,
    pub address: u64,
    pub size: u64,
    pub library: Option<Seq<char>>,
    pub object: Option<Seq<char>>,
    pub fill: Option<(u64, u64)>,
    pub data: Seq<char>,
}

/// Decoding one record span at entry granularity: the name comes from the
/// first line; the info match is searched on the first line, or from the
/// second line on when the first holds only the name; the first fill line
/// after the info line is merged.
pub open spec fn spec_decode_record(s: Seq<char>) -> Option<RecSpec> {
    if s.len() == 0 {
        None
    } else {
        let lines = spec_lines(s);
        match spec_rec_name(lines[0]) {
            None => None,
            Some(name) => {
                let start: int = if name_only_line(lines[0]) {
                    1
                } else {
                    0
                };
                match spec_find_entry_info(lines, start) {
                    None => None,
                    Some((k, info)) => Some(
                        RecSpec {
                            name: name,
                            address: info.address,
                            size: info.size,
                            library: info.library,
                            object: Some(info.object),
                            fill: spec_find_fill(lines, k + 1),
                            data: s,
                        },
                    ),
                }
            },
        }
    }
}

/// Decoding one record span at sub-section granularity: as at entry
/// granularity, except that the info match must sit on its designated line —
/// the first line, or exactly the second when the first holds only the name.
pub open spec fn spec_decode_subsection(s: Seq<char>) -> Option<RecSpec> {
    if s.len() == 0 {
        None
    } else {
        let lines = spec_lines(s);
        match spec_rec_name(lines[0]) {
            None => None,
            Some(name) => {
                let k: int = if name_only_line(lines[0]) {
                    1
                } else {
                    0
                };
                if k >= lines.len() {
                    None
                } else {
                    match spec_entry_info_of_line(lines[k]) {
                        None => None,
                        Some(info) => Some(
                            RecSpec {
                                name: name,
                                address: info.address,
                                size: info.size,
                                library: info.library,
                                object: Some(info.object),
                                fill: spec_find_fill(lines, k + 1),
                                data: s,
                            },
                        ),
                    }
                }
            },
        }
    }
}

/// Decoding a one-line record description anchored at the start of the text:
/// a whole name token, an address and a size as hexadecimal tokens, then a
/// provenance token.
pub open spec fn spec_sub_from_str(s: Seq<char>) -> Option<(Seq<char>, u64, u64)> {
    if s.len() == 0 {
        None
    } else {
        let line = spec_lines(s)[0];
        let ts = spec_tokens(line);
        if line.len() > 0 && !is_space_char(line[0]) && ts.len() >= 4 && is_name_token(ts[0])
            && is_hex_u64_token(ts[1]) && is_hex_u64_token(ts[2]) && ts[3].len() > 0
            && spec_is_name_char(ts[3][0]) {
            Some((ts[0], hex_token_val(ts[1]) as u64, hex_token_val(ts[2]) as u64))
        } else {
            None
        }
    }
}

/// Every character of `s` is blank or a newline.
pub open spec fn spec_blank_text(s: Seq<char>) -> bool {
    forall|j: int| 0 <= j < s.len() ==> is_space_char(#[trigger] s[j]) || s[j] == '\n'
}

/// A decoded segment or section header: a name, and an address/size pair
/// when one was found on the header's lines.
pub struct HeadSpec {
    pub name: Seq<char>,
    pub pair: Option<(u64, u64)>,
}

/// Decoding a segment header span: the name is anchored at the start of the
/// first line, a line containing the linker directive marker is rejected,
/// and the address/size pair is the first hexadecimal pair on any line.
pub open spec fn spec_decode_segment_info(s: Seq<char>) -> Option<HeadSpec> {
    if spec_blank_text(s) {
        None
    } else {
        let lines = spec_lines(s);
        if spec_contains(lines[0], load_marker()) {
            None
        } else {
            match spec_head_name(lines[0]) {
                None => None,
                Some(name) => Some(HeadSpec { name, pair: spec_find_hex_pair(lines, 0) }),
            }
        }
    }
}

/// A line that never starts a record and is skipped by the block splitter:
/// blank, an alignment/sort directive, a fill line, or a fill-mask line.
pub open spec fn spec_noise_line(line: Seq<char>) -> bool {
    ||| spec_contains(line, sort_split_marker())
    ||| line.len() == 0
    ||| spec_starts_with(line, fill_marker())
    ||| spec_starts_with(line, fill_mask_marker())
}

/// Characters that may open a record name after the one leading space.
pub open spec fn spec_is_start_char(c: char) -> bool {
    ||| '0' <= c && c <= '9'
    ||| 'a' <= c && c <= 'z'
    ||| 'A' <= c && c <= 'Z'
    ||| c == '/'
    ||| c == '.'
}

/// A line that starts a new record: one leading space, then a record-opening
/// character.
pub open spec fn spec_entry_start(line: Seq<char>) -> bool {
    line.len() >= 2 && line[0] == ' ' && spec_is_start_char(line[1])
}

pub fn is_start_char(c: char) -> (r: bool)
    ensures
        r == spec_is_start_char(c),
{
    let u = c as u32;
    (48 <= u && u <= 57) || (97 <= u && u <= 122) || (65 <= u && u <= 90) || c == '/' || c == '.'
}

pub fn sort_marker_vec() -> (r: Vec<char>)
    ensures
        r@ == sort_marker(),
{
    let r = vec!['S', 'O', 'R', 'T', '_', 'B', 'Y'];
    proof {
        assert(r@ =~= sort_marker());
    }
    r
}

pub fn sort_split_marker_vec() -> (r: Vec<char>)
    ensures
        r@ == sort_split_marker(),
{
    let r = vec!['(', 'S', 'O', 'R', 'T', '_', 'B', 'Y', '_'];
    proof {
        assert(r@ =~= sort_split_marker());
    }
    r
}

pub fn fill_marker_vec() -> (r: Vec<char>)
    ensures
        r@ == fill_marker(),
{
    let r = vec![' ', '*', 'f', 'i', 'l', 'l', '*'];
    proof {
        assert(r@ =~= fill_marker());
    }
    r
}

pub fn fill_mask_marker_vec() -> (r: Vec<char>)
    ensures
        r@ == fill_mask_marker(),
{
    let r = vec![' ', 'F', 'I', 'L', 'L'];
    proof {
        assert(r@ =~= fill_mask_marker());
    }
    r
}

pub fn load_marker_vec() -> (r: Vec<char>)
    ensures
        r@ == load_marker(),
{
    let r = vec!['L', 'O', 'A', 'D'];
    proof {
        assert(r@ =~= load_marker());
    }
    r
}

/// Decodes the provenance token at `[lo, hi)` into library and object names.
pub fn prov_of_token(data: &str, v: &Vec<char>, lo: usize, hi: usize) -> (r: (
    Option<String>,
    String,
))
    requires
        v@ == data@,
        lo <= hi <= v.len(),
        spec_prov(v@.subrange(lo as int, hi as int)) is Some,
    ensures
        ({
            let p = spec_prov(v@.subrange(lo as int, hi as int))->0;
            option_view(r.0) == p.0 && r.1@ == p.1
        }),
{
    let ghost t = v@.subrange(lo as int, hi as int);
    let me = scan_name_end(v, lo, hi);
    proof {
        assert(name_run(t) >= 1);
    }
    if me < hi && v[me] == '(' {
        proof {
            assert(t[(me - lo) as int] == v@[me as int]);
            assert(t.skip((me - lo) + 1) =~= v@.subrange((me + 1) as int, hi as int));
        }
        let m2e = scan_name_end(v, me + 1, hi);
        if m2e > me + 1 && m2e < hi && v[m2e] == ')' {
            proof {
                assert(t[(m2e - lo) as int] == v@[m2e as int]);
                assert(t.take((me - lo) as int) =~= data@.subrange(lo as int, me as int));
                assert(t.subrange((me - lo) + 1, (m2e - lo) as int) =~= data@.subrange(
                    (me + 1) as int,
                    m2e as int,
                ));
            }
            let lib = String::from_str(data.substring_char(lo, me));
            let obj = String::from_str(data.substring_char(me + 1, m2e));
            return (Some(lib), obj);
        }
        proof {
            if m2e < hi {
                assert(t[(m2e - lo) as int] == v@[m2e as int]);
            }
            assert(t.take((me - lo) as int) =~= data@.subrange(lo as int, me as int));
        }
        let obj = String::from_str(data.substring_char(lo, me));
        return (None, obj);
    }
    proof {
        assert(me < hi ==> t[(me - lo) as int] == v@[me as int]);
        assert(t.take((me - lo) as int) =~= data@.subrange(lo as int, me as int));
    }
    let obj = String::from_str(data.substring_char(lo, me));
    (None, obj)
}

/// Finds the first entry info match on the line `[lo, hi)`: address, size,
/// and the range of the provenance token.
pub fn entry_info_in_line(v: &Vec<char>, lo: usize, hi: usize) -> (r: Option<(u64, u64, usize, usize)>)
    requires
        lo <= hi <= v.len(),
    ensures
        ({
            let line = v@.subrange(lo as int, hi as int);
            match r {
                None => spec_entry_info_of_line(line) is None,
                Some((a, s, plo, phi)) => {
                    &&& spec_entry_info_of_line(line) is Some
                    &&& ({
                        let info = spec_entry_info_of_line(line)->0;
                        &&& a == info.address
                        &&& s == info.size
                        &&& lo <= plo <= phi <= hi
                        &&& spec_prov(v@.subrange(plo as int, phi as int)) == Some(
                            (info.library, info.object),
                        )
                    })
                },
            }
        }),
{
    let ghost line = v@.subrange(lo as int, hi as int);
    let ts = tokens_in(v, lo, hi);
    let ghost tsv = spec_tokens(line);
    let start: usize = if lo < hi && !space_char(v[lo]) {
        1
    } else {
        0
    };
    proof {
        if lo < hi {
            assert(line[0] == v@[lo as int]);
        }
        assert(start as int == match_start(line));
    }
    let n = ts.len();
    if n < 3 {
        return None;
    }
    let mut i: usize = start;
    while n - i >= 3
        invariant
            lo <= hi <= v.len(),
            line == v@.subrange(lo as int, hi as int),
            tsv == spec_tokens(line),
            ranges_match(v@, ts@, tsv, lo as int, hi as int),
            n == ts@.len(),
            start <= i <= n,
            3 <= n,
            start as int == match_start(line),
            first_entry_info(tsv, start as int) == first_entry_info(tsv, i as int),
        decreases n - i,
    {
        let (alo, ahi) = (ts[i].0, ts[i].1);
        let (slo, shi) = (ts[i + 1].0, ts[i + 1].1);
        let (plo, phi) = (ts[i + 2].0, ts[i + 2].1);
        let a = hex_token_value(v, alo, ahi);
        let s = hex_token_value(v, slo, shi);
        let mut prov_ok = false;
        if plo < phi {
            if is_name_char(v[plo]) {
                prov_ok = true;
            }
        }
        proof {
            assert(tsv[i as int] == v@.subrange(alo as int, ahi as int));
            assert(tsv[i + 1] == v@.subrange(slo as int, shi as int));
            assert(tsv[i + 2] == v@.subrange(plo as int, phi as int));
            assert(tsv[i + 2].len() == phi - plo);
            if plo < phi {
                assert(tsv[i + 2][0] == v@[plo as int]);
            }
        }
        match (a, s) {
            (Some(av), Some(sv)) if prov_ok => {
                proof {
                    assert(entry_info_at(tsv, i as int));
                    assert(first_entry_info(tsv, i as int) == Some(i as int));
                    assert(name_run(tsv[i + 2]) >= 1);
                    assert(spec_prov(tsv[i + 2]) is Some);
                }
                return Some((av, sv, plo, phi));
            },
            _ => {
                proof {
                    assert(!entry_info_at(tsv, i as int));
                    assert(first_entry_info(tsv, i as int) == first_entry_info(tsv, i + 1));
                }
            },
        }
        i = i + 1;
    }
    proof {
        assert(first_entry_info(tsv, i as int) is None);
    }
    None
}

/// Finds the first hexadecimal address/size pair on the line `[lo, hi)`.
pub fn hex_pair_in_line(v: &Vec<char>, lo: usize, hi: usize) -> (r: Option<(u64, u64)>)
    requires
        lo <= hi <= v.len(),
    ensures
        r == spec_hex_pair_of_line(v@.subrange(lo as int, hi as int)),
{
    let ghost line = v@.subrange(lo as int, hi as int);
    let ts = tokens_in(v, lo, hi);
    let ghost tsv = spec_tokens(line);
    let start: usize = if lo < hi && !space_char(v[lo]) {
        1
    } else {
        0
    };
    proof {
        if lo < hi {
            assert(line[0] == v@[lo as int]);
        }
        assert(start as int == match_start(line));
    }
    let n = ts.len();
    if n < 2 {
        return None;
    }
    let mut i: usize = start;
    while n - i >= 2
        invariant
            lo <= hi <= v.len(),
            line == v@.subrange(lo as int, hi as int),
            tsv == spec_tokens(line),
            ranges_match(v@, ts@, tsv, lo as int, hi as int),
            n == ts@.len(),
            start <= i <= n,
            2 <= n,
            start as int == match_start(line),
            first_hex_pair(tsv, start as int) == first_hex_pair(tsv, i as int),
        decreases n - i,
    {
        let (alo, ahi) = (ts[i].0, ts[i].1);
        let (slo, shi) = (ts[i + 1].0, ts[i + 1].1);
        let a = hex_token_value(v, alo, ahi);
        let s = hex_token_value(v, slo, shi);
        proof {
            assert(tsv[i as int] == v@.subrange(alo as int, ahi as int));
            assert(tsv[i + 1] == v@.subrange(slo as int, shi as int));
        }
        match (a, s) {
            (Some(av), Some(sv)) => {
                proof {
                    assert(hex_pair_at(tsv, i as int));
                    assert(first_hex_pair(tsv, i as int) == Some(i as int));
                }
                return Some((av, sv));
            },
            _ => {
                proof {
                    assert(!hex_pair_at(tsv, i as int));
                    assert(first_hex_pair(tsv, i as int) == first_hex_pair(tsv, i + 1));
                }
            },
        }
        i = i + 1;
    }
    proof {
        assert(first_hex_pair(tsv, i as int) is None);
    }
    None
}

/// Recognizes a fill line `[lo, hi)` and decodes its address and size.
pub fn fill_of_line(v: &Vec<char>, lo: usize, hi: usize) -> (r: Option<(u64, u64)>)
    requires
        lo <= hi <= v.len(),
    ensures
        r == spec_fill_of_line(v@.subrange(lo as int, hi as int)),
{
    let ghost line = v@.subrange(lo as int, hi as int);
    if hi - lo < 8 {
        return None;
    }
    proof {
        assert(forall|j: int| 0 <= j < 8 ==> line[j] == v@[lo + j]);
    }
    if !(v[lo] == ' ' && v[lo + 1] == '*' && v[lo + 2] == 'f' && v[lo + 3] == 'i' && v[lo + 4]
        == 'l' && v[lo + 5] == 'l' && v[lo + 6] == '*') {
        proof {
            assert(!spec_starts_with(line, fill_marker())) by {
                if spec_starts_with(line, fill_marker()) {
                    assert(forall|j: int|
                        0 <= j < 7 ==> line.take(7)[j] == fill_marker()[j]);
                }
            }
        }
        return None;
    }
    proof {
        assert(line.take(7) =~= fill_marker());
    }
    if !space_char(v[lo + 7]) {
        return None;
    }
    let ts = tokens_in(v, lo + 7, hi);
    let ghost tsv = spec_tokens(line.skip(7));
    proof {
        assert(line.skip(7) =~= v@.subrange((lo + 7) as int, hi as int));
    }
    if ts.len() < 2 {
        return None;
    }
    let a = hex_token_value(v, ts[0].0, ts[0].1);
    let s = hex_token_value(v, ts[1].0, ts[1].1);
    proof {
        assert(tsv[0] == v@.subrange(ts@[0].0 as int, ts@[0].1 as int));
        assert(tsv[1] == v@.subrange(ts@[1].0 as int, ts@[1].1 as int));
    }
    match (a, s) {
        (Some(av), Some(sv)) => Some((av, sv)),
        _ => None,
    }
}

/// Scans the lines from `start` for the first entry info match, returning the
/// line position, address, size and provenance token range.
pub(crate) fn find_entry_info_from(
    v: &Vec<char>,
    lines: &Vec<(usize, usize)>,
    Ghost(lv): Ghost<Seq<Seq<char>>>,
    start: usize,
) -> (r: Option<(usize, u64, u64, usize, usize)>)
    requires
        ranges_match(v@, lines@, lv, 0, v@.len() as int),
    ensures
        ({
            match r {
                None => spec_find_entry_info(lv, start as int) is None,
                Some((k, a, s, plo, phi)) => {
                    &&& spec_find_entry_info(lv, start as int) is Some
                    &&& ({
                        let (sk, info) = spec_find_entry_info(lv, start as int)->0;
                        &&& sk == k
                        &&& k < lv.len()
                        &&& a == info.address
                        &&& s == info.size
                        &&& plo <= phi <= v@.len()
                        &&& spec_prov(v@.subrange(plo as int, phi as int)) == Some(
                            (info.library, info.object),
                        )
                    })
                },
            }
        }),
{
    let n = lines.len();
    let mut j: usize = start;
    while j < n
        invariant
            n == lines@.len() == lv.len(),
            start <= j,
            ranges_match(v@, lines@, lv, 0, v@.len() as int),
            spec_find_entry_info(lv, start as int) == spec_find_entry_info(lv, j as int),
        decreases n - j,
    {
        let (llo, lhi) = lines[j];
        proof {
            assert(lv[j as int] == v@.subrange(llo as int, lhi as int));
        }
        match entry_info_in_line(v, llo, lhi) {
            Some((a, s, plo, phi)) => {
                return Some((j, a, s, plo, phi));
            },
            None => {},
        }
        j = j + 1;
    }
    None
}

/// Scans the lines from `start` for the first hexadecimal pair.
pub(crate) fn find_hex_pair_from(
    v: &Vec<char>,
    lines: &Vec<(usize, usize)>,
    Ghost(lv): Ghost<Seq<Seq<char>>>,
    start: usize,
) -> (r: Option<(u64, u64)>)
    requires
        ranges_match(v@, lines@, lv, 0, v@.len() as int),
    ensures
        r == spec_find_hex_pair(lv, start as int),
{
    let n = lines.len();
    let mut j: usize = start;
    while j < n
        invariant
            n == lines@.len() == lv.len(),
            start <= j,
            ranges_match(v@, lines@, lv, 0, v@.len() as int),
            spec_find_hex_pair(lv, start as int) == spec_find_hex_pair(lv, j as int),
        decreases n - j,
    {
        let (llo, lhi) = lines[j];
        proof {
            assert(lv[j as int] == v@.subrange(llo as int, lhi as int));
        }
        match hex_pair_in_line(v, llo, lhi) {
            Some(p) => {
                return Some(p);
            },
            None => {},
        }
        j = j + 1;
    }
    None
}

/// Scans the lines from `start` for the first fill line.
pub(crate) fn find_fill_from(
    v: &Vec<char>,
    lines: &Vec<(usize, usize)>,
    Ghost(lv): Ghost<Seq<Seq<char>>>,
    start: usize,
) -> (r: Option<(u64, u64)>)
    requires
        ranges_match(v@, lines@, lv, 0, v@.len() as int),
    ensures
        r == spec_find_fill(lv, start as int),
{
    let n = lines.len();
    let mut j: usize = start;
    while j < n
        invariant
            n == lines@.len() == lv.len(),
            start <= j,
            ranges_match(v@, lines@, lv, 0, v@.len() as int),
            spec_find_fill(lv, start as int) == spec_find_fill(lv, j as int),
        decreases n - j,
    {
        let (llo, lhi) = lines[j];
        proof {
            assert(lv[j as int] == v@.subrange(llo as int, lhi as int));
        }
        match fill_of_line(v, llo, lhi) {
            Some(f) => {
                return Some(f);
            },
            None => {},
        }
        j = j + 1;
    }
    None
}

/// A token (nonempty, free of blanks and newlines).
pub open spec fn plain_token(t: Seq<char>) -> bool {
    t.len() >= 1 && forall|j: int|
        0 <= j < t.len() ==> !is_space_char(#[trigger] t[j]) && t[j] != '\n'
}

/// Splitting off one leading token: the tokens of a token followed by blank
/// space are the token and the tokens of what follows.
pub proof fn lemma_tokens_cons(t: Seq<char>, rest: Seq<char>)
    requires
        plain_token(t),
        rest.len() == 0 || is_space_char(rest[0]),
    ensures
        spec_tokens(t + rest) == seq![t] + spec_tokens(rest),
{
    let u = t + rest;
    assert forall|j: int| 0 <= j < t.len() implies !is_space_char(#[trigger] u[j]) by {
        assert(u[j] == t[j]);
    }
    if rest.len() > 0 {
        assert(u[t.len() as int] == rest[0]);
    }
    lemma_token_len_at(u, t.len() as int);
    assert(u.take(t.len() as int) =~= t);
    assert(u.skip(t.len() as int) =~= rest);
}

/// A text without newlines is one single line.
pub proof fn lemma_single_line(s: Seq<char>)
    requires
        forall|j: int| 0 <= j < s.len() ==> (#[trigger] s[j]) != '\n',
        s.len() >= 1,
    ensures
        spec_lines(s) == seq![s],
        spec_lines(s)[0] == s,
    decreases s.len(),
{
    lemma_line_len_at(s, s.len() as int);
}

/// A nonempty run of blanks.
pub open spec fn all_blank(w: Seq<char>) -> bool {
    w.len() >= 1 && forall|j: int| 0 <= j < w.len() ==> is_space_char(#[trigger] w[j])
}

/// A single-line record span: one leading space, then the name, address,
/// size and provenance tokens, separated by the blank runs `w1`–`w3`.
pub open spec fn single_line_span(
    n: Seq<char>,
    w1: Seq<char>,
    a: Seq<char>,
    w2: Seq<char>,
    s: Seq<char>,
    w3: Seq<char>,
    p: Seq<char>,
) -> Seq<char> {
    seq![' '] + n + (w1 + a + (w2 + s + (w3 + p)))
}

/// A two-line record span: the name alone on the first line, the address,
/// size and provenance on the second, indented by the blank run `wi`.
pub open spec fn two_line_span(
    n: Seq<char>,
    wi: Seq<char>,
    a: Seq<char>,
    w2: Seq<char>,
    s: Seq<char>,
    w3: Seq<char>,
    p: Seq<char>,
) -> Seq<char> {
    seq![' '] + n + (seq!['\n'] + (wi + a + (w2 + s + (w3 + p))))
}

/// Leading blanks never change the token list.
pub proof fn lemma_tokens_blanks(w: Seq<char>, rest: Seq<char>)
    requires
        forall|j: int| 0 <= j < w.len() ==> is_space_char(#[trigger] w[j]),
    ensures
        spec_tokens(w + rest) == spec_tokens(rest),
    decreases w.len(),
{
    if w.len() == 0 {
        assert(w + rest =~= rest);
    } else {
        assert(is_space_char((w + rest)[0]));
        assert((w + rest).drop_first() =~= w.drop_first() + rest);
        lemma_tokens_blanks(w.drop_first(), rest);
    }
}

proof fn lemma_info_tail_tokens(
    w1: Seq<char>,
    a: Seq<char>,
    w2: Seq<char>,
    s: Seq<char>,
    w3: Seq<char>,
    p: Seq<char>,
)
    requires
        all_blank(w1),
        all_blank(w2),
        all_blank(w3),
        plain_token(a),
        plain_token(s),
        plain_token(p),
    ensures
        spec_tokens(w1 + a + (w2 + s + (w3 + p))) == seq![a, s, p],
{
    lemma_tokens_blanks(w3, p);
    lemma_tokens_cons(p, Seq::empty());
    assert(p + Seq::<char>::empty() =~= p);
    assert(spec_tokens(w3 + p) == seq![p]);
    assert((w2 + s + (w3 + p)).drop_first() =~= w2.drop_first() + (s + (w3 + p)));
    lemma_tokens_blanks(w2, s + (w3 + p));
    assert(w2 + (s + (w3 + p)) =~= w2 + s + (w3 + p));
    lemma_tokens_cons(s, w3 + p);
    assert(spec_tokens(w2 + s + (w3 + p)) == seq![s] + seq![p]);
    lemma_tokens_blanks(w1, a + (w2 + s + (w3 + p)));
    assert(w1 + (a + (w2 + s + (w3 + p))) =~= w1 + a + (w2 + s + (w3 + p)));
    lemma_tokens_cons(a, w2 + s + (w3 + p));
    assert(spec_tokens(w1 + a + (w2 + s + (w3 + p))) == seq![a] + (seq![s] + seq![p]));
    assert(seq![a] + (seq![s] + seq![p]) =~= seq![a, s, p]);
}

/// Two-line record equivalence: a name-only first line followed by an
/// indented address/size/provenance line decodes to the same record fields
/// as the single-line form, for any blank runs between the fields, any name
/// that is not itself a hexadecimal number, any in-range addresses and
/// sizes, and any provenance token.  Only the retained raw spans differ.
#[verifier::rlimit(100)]
#[verifier::spinoff_prover]
pub proof fn lemma_two_line_record(
    n: Seq<char>,
    w1: Seq<char>,
    wi: Seq<char>,
    a: Seq<char>,
    w2: Seq<char>,
    s: Seq<char>,
    w3: Seq<char>,
    p: Seq<char>,
)
    requires
        is_name_token(n),
        !is_hex_u64_token(n),
        is_hex_u64_token(a),
        is_hex_u64_token(s),
        all_blank(w1),
        all_blank(wi),
        all_blank(w2),
        all_blank(w3),
        plain_token(a),
        plain_token(s),
        plain_token(p),
        spec_is_name_char(p[0]),
    ensures
        ({
            let one = spec_decode_record(single_line_span(n, w1, a, w2, s, w3, p));
            let two = spec_decode_record(two_line_span(n, wi, a, w2, s, w3, p));
            let prov = spec_prov(p)->0;
            &&& one is Some
            &&& two is Some
            &&& one->0.name == n && two->0.name == n
            &&& one->0.address == two->0.address
            &&& one->0.address == hex_token_val(a) as u64
            &&& one->0.size == two->0.size
            &&& one->0.size == hex_token_val(s) as u64
            &&& one->0.library == two->0.library
            &&& one->0.object == Some(prov.1) && two->0.object == Some(prov.1)
            &&& one->0.fill is None
            &&& two->0.fill is None
        }),
{
    let tail = w1 + a + (w2 + s + (w3 + p));
    let tail2 = wi + a + (w2 + s + (w3 + p));
    let one = single_line_span(n, w1, a, w2, s, w3, p);
    let two = two_line_span(n, wi, a, w2, s, w3, p);
    assert(forall|j: int| 0 <= j < n.len() ==> !is_space_char(#[trigger] n[j]) && n[j] != '\n');
    lemma_info_tail_tokens(w1, a, w2, s, w3, p);
    lemma_info_tail_tokens(wi, a, w2, s, w3, p);

    // the single-line span is one line holding four tokens
    assert forall|j: int| 0 <= j < one.len() implies (#[trigger] one[j]) != '\n' by {}
    lemma_single_line(one);
    lemma_tokens_cons(n, tail);
    assert(one.drop_first() =~= n + tail);
    assert(spec_tokens(one) == spec_tokens(n + tail));
    assert(spec_tokens(one) == seq![n] + seq![a, s, p]);
    let ts1 = spec_tokens(one);
    assert(ts1 =~= seq![n, a, s, p]);

    // name of the first line
    assert(one[0] == ' ' && one[1] == n[0]);
    assert(one.skip(1) =~= n + tail);
    assert(!spec_is_name_char((n + tail)[n.len() as int])) by {
        assert((n + tail)[n.len() as int] == w1[0]);
    }
    lemma_name_run_at(n + tail, n.len() as int);
    assert(spec_rec_name(one) == Some(one.subrange(1, 1 + n.len() as int)));
    assert(one.subrange(1, 1 + n.len() as int) =~= n);
    assert(!name_only_line(one)) by {
        assert(tail[w1.len() as int] == a[0]);
        assert(one[1 + n.len() + w1.len() as int] == (n + tail)[n.len() + w1.len() as int]);
        assert((n + tail)[n.len() + w1.len() as int] == tail[w1.len() as int]);
        assert(!is_space_char(a[0]));
    }

    // the info match sits at token position one
    assert(match_start(one) == 0);
    assert(!entry_info_at(ts1, 0));
    assert(entry_info_at(ts1, 1));
    assert(first_entry_info(ts1, 1) == Some(1int));
    assert(first_entry_info(ts1, 0) == Some(1int));
    assert(spec_entry_info_of_line(one) is Some);
    assert(name_run(p) >= 1);
    assert(spec_prov(p) is Some);
    assert(spec_find_entry_info(seq![one], 0) == Some((0int, spec_entry_info_of_line(one)->0)));
    assert(spec_find_fill(seq![one], 1) is None);

    // the two-line span splits into the name line and the info line
    let l1 = seq![' '] + n;
    let l2 = tail2;
    assert forall|j: int| 0 <= j < l1.len() implies (#[trigger] l1[j]) != '\n' by {}
    assert(two =~= l1 + seq!['\n'] + l2);
    assert(two[l1.len() as int] == '\n');
    assert forall|j: int| 0 <= j < l1.len() implies (#[trigger] two[j]) != '\n' by {
        assert(two[j] == l1[j]);
    }
    lemma_line_len_at(two, l1.len() as int);
    assert(two.take(l1.len() as int) =~= l1);
    assert(two.skip(l1.len() as int + 1) =~= l2);
    assert forall|j: int| 0 <= j < l2.len() implies (#[trigger] l2[j]) != '\n' by {}
    lemma_single_line(l2);
    let lines2 = spec_lines(two);
    assert(lines2 =~= seq![l1, l2]);

    // name line of the two-line span
    assert(l1[0] == ' ' && l1[1] == n[0]);
    assert(l1.skip(1) =~= n + Seq::<char>::empty());
    assert(n + Seq::<char>::empty() =~= n);
    lemma_name_run_at(n, n.len() as int);
    assert(spec_rec_name(l1) == Some(l1.subrange(1, 1 + n.len() as int)));
    assert(l1.subrange(1, 1 + n.len() as int) =~= n);
    assert(name_only_line(l1));

    // the info match sits at the start of the second line
    let ts2 = spec_tokens(l2);
    assert(ts2 =~= seq![a, s, p]);
    assert(is_space_char(l2[0])) by {
        assert(l2[0] == wi[0]);
    }
    assert(match_start(l2) == 0);
    assert(entry_info_at(ts2, 0));
    assert(first_entry_info(ts2, 0) == Some(0int));
    assert(spec_entry_info_of_line(l2) is Some);
    assert(spec_find_entry_info(lines2, 1) == Some((1int, spec_entry_info_of_line(l2)->0)));
    assert(spec_find_fill(lines2, 2) is None);
}

proof fn lemma_find_info_none(lines: Seq<Seq<char>>, j: int)
    requires
        forall|k: int| j <= k < lines.len() ==> spec_entry_info_of_line(#[trigger] lines[k]) is None,
    ensures
        spec_find_entry_info(lines, j) is None,
    decreases lines.len() - j,
{
    if 0 <= j < lines.len() {
        lemma_find_info_none(lines, j + 1);
    }
}

/// Malformed record rejected, in general: a span none of whose lines carries
/// an address/size/provenance match decodes to no record, whatever its name
/// line holds.
pub proof fn lemma_no_info_no_record(s: Seq<char>)
    requires
        forall|k: int|
            0 <= k < spec_lines(s).len() ==> spec_entry_info_of_line(
                #[trigger] spec_lines(s)[k],
            ) is None,
    ensures
        spec_decode_record(s) is None,
{
    if s.len() > 0 {
        lemma_find_info_none(spec_lines(s), 0);
        lemma_find_info_none(spec_lines(s), 1);
    }
}

/// Malformed address rejected: a record line whose address and size fields
/// lack the hexadecimal prefix (plain decimal digits) decodes to no record.
pub proof fn lemma_decimal_record_rejected(
    n: Seq<char>,
    w1: Seq<char>,
    a: Seq<char>,
    w2: Seq<char>,
    s: Seq<char>,
    w3: Seq<char>,
    p: Seq<char>,
)
    requires
        is_name_token(n),
        a.len() >= 1 && forall|j: int| 0 <= j < a.len() ==> '0' <= (#[trigger] a[j]) <= '9',
        s.len() >= 1 && forall|j: int| 0 <= j < s.len() ==> '0' <= (#[trigger] s[j]) <= '9',
        all_blank(w1),
        all_blank(w2),
        all_blank(w3),
        plain_token(p),
    ensures
        spec_decode_record(single_line_span(n, w1, a, w2, s, w3, p)) is None,
{
    let one = single_line_span(n, w1, a, w2, s, w3, p);
    let tail = w1 + a + (w2 + s + (w3 + p));
    assert(forall|j: int| 0 <= j < n.len() ==> !is_space_char(#[trigger] n[j]) && n[j] != '\n');
    assert(plain_token(a)) by {
        assert(forall|j: int|
            0 <= j < a.len() ==> !is_space_char(#[trigger] a[j]) && a[j] != '\n');
    }
    assert(plain_token(s)) by {
        assert(forall|j: int|
            0 <= j < s.len() ==> !is_space_char(#[trigger] s[j]) && s[j] != '\n');
    }
    lemma_info_tail_tokens(w1, a, w2, s, w3, p);
    assert forall|j: int| 0 <= j < one.len() implies (#[trigger] one[j]) != '\n' by {}
    lemma_single_line(one);
    lemma_tokens_cons(n, tail);
    assert(one.drop_first() =~= n + tail);
    let ts = spec_tokens(one);
    assert(ts =~= seq![n, a, s, p]);
    assert(!is_hex_u64_token(a)) by {
        if a.len() >= 3 && a[1] == 'x' {
        }
    }
    assert(!is_hex_u64_token(s)) by {
        if s.len() >= 3 && s[1] == 'x' {
        }
    }
    assert(first_entry_info(ts, 0) is None) by {
        assert(!entry_info_at(ts, 0));
        assert(!entry_info_at(ts, 1));
        assert(first_entry_info(ts, 2) is None);
        assert(first_entry_info(ts, 1) is None);
    }
    assert(spec_entry_info_of_line(one) is None);
    assert(spec_find_entry_info(seq![one], 0) is None);
    assert(spec_find_entry_info(seq![one], 1) is None);
}

/// Whether the whole text is blanks and newlines.
pub fn blank_text(v: &Vec<char>) -> (r: bool)
    ensures
        r == spec_blank_text(v@),
{
    let n = v.len();
    let mut i: usize = 0;
    while i < n
        invariant
            i <= n == v@.len(),
            forall|j: int| 0 <= j < i ==> is_space_char(#[trigger] v@[j]) || v@[j] == '\n',
        decreases n - i,
    {
        if !(space_char(v[i]) || v[i] == '\n') {
            return false;
        }
        i = i + 1;
    }
    true
}

} // verus!
