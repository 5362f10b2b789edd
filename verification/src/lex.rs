//! Lexical helpers: the character classes and token patterns that the map
//! format is built from, as specification functions, together with verified
//! executable matchers over character vectors.

use vstd::prelude::*;

verus! {

/// Blank characters that separate the fields of a line.
pub open spec fn is_space_char(c: char) -> bool {
    c == ' ' || c == '\t'
}

/// Characters that may appear in a segment, record, object or library name.
pub open spec fn spec_is_name_char(c: char) -> bool {
    ||| '0' <= c && c <= '9'
    ||| 'a' <= c && c <= 'z'
    ||| 'A' <= c && c <= 'Z'
    ||| c == '.'
    ||| c == '/'
    ||| c == '*'
    ||| c == '_'
    ||| c == '"'
    ||| c == '-'
}

pub open spec fn spec_is_hex_digit(c: char) -> bool {
    ||| '0' <= c && c <= '9'
    ||| 'a' <= c && c <= 'f'
    ||| 'A' <= c && c <= 'F'
}

/// Numeric value of one hexadecimal digit.
pub open spec fn hex_digit_val(c: char) -> nat {
    if '0' <= c && c <= '9' {
        (c as nat - '0' as nat) as nat
    } else if 'a' <= c && c <= 'f' {
        (c as nat - 'a' as nat + 10) as nat
    } else {
        (c as nat - 'A' as nat + 10) as nat
    }
}

/// Value of a run of hexadecimal digits, most significant first.
pub open spec fn hex_val(s: Seq<char>) -> nat
    decreases s.len(),
{
    if s.len() == 0 {
        0
    } else {
        hex_val(s.drop_last()) * 16 + hex_digit_val(s.last())
    }
}

pub open spec fn all_hex_digits(s: Seq<char>) -> bool {
    forall|i: int| 0 <= i < s.len() ==> spec_is_hex_digit(#[trigger] s[i])
}

/// A whole token of the shape `0x` followed by one or more hexadecimal digits.
pub open spec fn is_hex_token(s: Seq<char>) -> bool {
    s.len() >= 3 && s[0] == '0' && s[1] == 'x' && all_hex_digits(s.skip(2))
}

/// A hexadecimal token whose value fits an address or size field.
pub open spec fn is_hex_u64_token(s: Seq<char>) -> bool {
    is_hex_token(s) && hex_val(s.skip(2)) <= u64::MAX
}

/// Value denoted by a hexadecimal token.
pub open spec fn hex_token_val(s: Seq<char>) -> nat {
    hex_val(s.skip(2))
}

pub fn space_char(c: char) -> (r: bool)
    ensures
        r == is_space_char(c),
{
    c == ' ' || c == '\t'
}

pub fn is_name_char(c: char) -> (r: bool)
    ensures
        r == spec_is_name_char(c),
{
    let u = c as u32;
    (48 <= u && u <= 57) || (97 <= u && u <= 122) || (65 <= u && u <= 90) || c == '.' || c == '/'
        || c == '*' || c == '_' || c == '"' || c == '-'
}

pub fn is_hex_digit(c: char) -> (r: bool)
    ensures
        r == spec_is_hex_digit(c),
{
    let u = c as u32;
    (48 <= u && u <= 57) || (97 <= u && u <= 102) || (65 <= u && u <= 70)
}

pub fn hex_digit(c: char) -> (r: u8)
    requires
        spec_is_hex_digit(c),
    ensures
        r as nat == hex_digit_val(c),
{
    let u = c as u32;
    if 48 <= u && u <= 57 {
        (u - 48) as u8
    } else if 97 <= u && u <= 102 {
        (u - 97 + 10) as u8
    } else {
        (u - 65 + 10) as u8
    }
}

/// Length of the maximal run of non-blank characters at the head of `s`.
pub open spec fn token_len(s: Seq<char>) -> nat
    decreases s.len(),
{
    if s.len() == 0 || is_space_char(s[0]) {
        0
    } else {
        1 + token_len(s.drop_first())
    }
}

/// The blank-separated tokens of one line, in order.
pub open spec fn spec_tokens(s: Seq<char>) -> Seq<Seq<char>>
    decreases s.len(),
{
    if s.len() == 0 {
        Seq::empty()
    } else if is_space_char(s[0]) {
        spec_tokens(s.drop_first())
    } else {
        let k = token_len(s) as int;
        if 1 <= k && k <= s.len() {
            seq![s.take(k)] + spec_tokens(s.skip(k))
        } else {
            seq![s]
        }
    }
}

/// Length of the maximal run of name characters at the head of `s`.
pub open spec fn name_run(s: Seq<char>) -> nat
    decreases s.len(),
{
    if s.len() == 0 || !spec_is_name_char(s[0]) {
        0
    } else {
        1 + name_run(s.drop_first())
    }
}

/// Number of characters before the first newline, or all of `s`.
pub open spec fn line_len(s: Seq<char>) -> nat
    decreases s.len(),
{
    if s.len() == 0 || s[0] == '\n' {
        0
    } else {
        1 + line_len(s.drop_first())
    }
}

/// The lines of a text, split on newline characters; a trailing newline does
/// not produce an empty final line.
pub open spec fn spec_lines(s: Seq<char>) -> Seq<Seq<char>>
    decreases s.len(),
{
    if s.len() == 0 {
        Seq::empty()
    } else {
        let k = line_len(s) as int;
        if 0 <= k && k < s.len() {
            seq![s.take(k)] + spec_lines(s.skip(k + 1))
        } else {
            seq![s]
        }
    }
}

/// Number of characters before the first blank-line separator (two
/// consecutive newlines), or all of `s`.
pub open spec fn chunk_len(s: Seq<char>) -> nat
    decreases s.len(),
{
    if s.len() < 2 {
        s.len()
    } else if s[0] == '\n' && s[1] == '\n' {
        0
    } else {
        1 + chunk_len(s.drop_first())
    }
}

/// The text split on blank-line separators; always at least one part.
pub open spec fn spec_chunks(s: Seq<char>) -> Seq<Seq<char>>
    decreases s.len(),
{
    let k = chunk_len(s) as int;
    if 0 <= k && k + 2 <= s.len() {
        seq![s.take(k)] + spec_chunks(s.skip(k + 2))
    } else {
        seq![s]
    }
}

pub open spec fn seq_matches_at(s: Seq<char>, pat: Seq<char>, i: int) -> bool {
    0 <= i && i + pat.len() <= s.len() && s.subrange(i, i + pat.len() as int) == pat
}

/// `pat` occurs somewhere inside `s`.
pub open spec fn spec_contains(s: Seq<char>, pat: Seq<char>) -> bool {
    exists|i: int| seq_matches_at(s, pat, i)
}

/// `s` begins with `pat`.
pub open spec fn spec_starts_with(s: Seq<char>, pat: Seq<char>) -> bool {
    pat.len() <= s.len() && s.take(pat.len() as int) == pat
}

/// The view of an optional value, for speaking of `Option<String>` and
/// `Option<&str>` fields in contracts.
pub open spec fn option_view<T: View>(o: Option<T>) -> Option<T::V> {
    match o {
        Some(t) => Some(t@),
        None => None,
    }
}

/// Every character of `s` at or after position `i` is blank.
pub open spec fn all_spaces_from(s: Seq<char>, i: int) -> bool {
    forall|j: int| i <= j < s.len() ==> is_space_char(#[trigger] s[j])
}

/// Number of blank characters at the head of `s`.
pub open spec fn ltrim_len(s: Seq<char>) -> nat
    decreases s.len(),
{
    if s.len() == 0 || !is_space_char(s[0]) {
        0
    } else {
        1 + ltrim_len(s.drop_first())
    }
}

/// Number of blank characters at the tail of `s`.
pub open spec fn rtrim_len(s: Seq<char>) -> nat
    decreases s.len(),
{
    if s.len() == 0 || !is_space_char(s.last()) {
        0
    } else {
        1 + rtrim_len(s.drop_last())
    }
}

/// `s` without its trailing blanks.
pub open spec fn spec_rtrim(s: Seq<char>) -> Seq<char> {
    s.take(s.len() - rtrim_len(s))
}

/// `s` without leading and trailing blanks.
pub open spec fn spec_trim(s: Seq<char>) -> Seq<char> {
    if ltrim_len(s) == s.len() {
        Seq::empty()
    } else {
        s.subrange(ltrim_len(s) as int, s.len() - rtrim_len(s))
    }
}

/// Whether `s` holds a space character.
pub open spec fn has_space(s: Seq<char>) -> bool {
    exists|j: int| 0 <= j < s.len() && s[j] == ' '
}

proof fn lemma_ltrim_len_at(s: Seq<char>, k: int)
    requires
        0 <= k <= s.len(),
        forall|j: int| 0 <= j < k ==> is_space_char(#[trigger] s[j]),
        k == s.len() || !is_space_char(s[k]),
    ensures
        ltrim_len(s) == k,
    decreases k,
{
    if k > 0 {
        lemma_ltrim_len_at(s.drop_first(), k - 1);
    }
}

proof fn lemma_rtrim_len_at(s: Seq<char>, k: int)
    requires
        0 <= k <= s.len(),
        forall|j: int| s.len() - k <= j < s.len() ==> is_space_char(#[trigger] s[j]),
        k == s.len() || !is_space_char(s[s.len() - k - 1]),
    ensures
        rtrim_len(s) == k,
    decreases k,
{
    if k > 0 {
        assert forall|j: int|
            s.drop_last().len() - (k - 1) <= j < s.drop_last().len() implies is_space_char(
            #[trigger] s.drop_last()[j],
        ) by {
            assert(s.drop_last()[j] == s[j]);
        }
        lemma_rtrim_len_at(s.drop_last(), k - 1);
    }
}

/// The bounds of `[lo, hi)` after trimming blanks from both ends: the
/// returned pair selects `spec_trim` of the range.
pub fn trim_in(v: &Vec<char>, lo: usize, hi: usize) -> (r: (usize, usize))
    requires
        lo <= hi <= v.len(),
    ensures
        lo <= r.0 <= r.1 <= hi,
        v@.subrange(r.0 as int, r.1 as int) == spec_trim(v@.subrange(lo as int, hi as int)),
{
    let ghost s = v@.subrange(lo as int, hi as int);
    let mut a: usize = lo;
    while a < hi && space_char(v[a])
        invariant
            lo <= a <= hi <= v.len(),
            forall|j: int| lo <= j < a ==> is_space_char(#[trigger] v@[j]),
        decreases hi - a,
    {
        a = a + 1;
    }
    proof {
        assert forall|j: int| 0 <= j < a - lo implies is_space_char(#[trigger] s[j]) by {
            assert(s[j] == v@[lo + j]);
        }
        if a < hi {
            assert(s[a - lo] == v@[a as int]);
        }
        lemma_ltrim_len_at(s, a - lo);
    }
    if a == hi {
        proof {
            assert(v@.subrange(a as int, a as int) =~= Seq::<char>::empty());
        }
        return (a, a);
    }
    let mut b: usize = hi;
    while b > a && space_char(v[b - 1])
        invariant
            a <= b <= hi <= v.len(),
            forall|j: int| b <= j < hi ==> is_space_char(#[trigger] v@[j]),
        decreases b,
    {
        b = b - 1;
    }
    proof {
        assert forall|j: int| s.len() - (hi - b) <= j < s.len() implies is_space_char(
            #[trigger] s[j],
        ) by {
            assert(s[j] == v@[lo + j]);
        }
        assert(!is_space_char(v@[a as int]));
        assert(b > a) by {
            if b == a {
                assert(is_space_char(v@[a as int]));
            }
        }
        assert(s[(b - 1 - lo) as int] == v@[b - 1 as int]);
        lemma_rtrim_len_at(s, hi - b);
        assert(v@.subrange(a as int, b as int) =~= spec_trim(s));
    }
    (a, b)
}

/// The end of `[lo, hi)` after trimming trailing blanks: the returned bound
/// selects `spec_rtrim` of the range.
pub fn rtrim_in(v: &Vec<char>, lo: usize, hi: usize) -> (r: usize)
    requires
        lo <= hi <= v.len(),
    ensures
        lo <= r <= hi,
        v@.subrange(lo as int, r as int) == spec_rtrim(v@.subrange(lo as int, hi as int)),
{
    let ghost s = v@.subrange(lo as int, hi as int);
    let mut b: usize = hi;
    while b > lo && space_char(v[b - 1])
        invariant
            lo <= b <= hi <= v.len(),
            forall|j: int| b <= j < hi ==> is_space_char(#[trigger] v@[j]),
        decreases b,
    {
        b = b - 1;
    }
    proof {
        assert forall|j: int| s.len() - (hi - b) <= j < s.len() implies is_space_char(
            #[trigger] s[j],
        ) by {
            assert(s[j] == v@[lo + j]);
        }
        if b > lo {
            assert(s[(b - 1 - lo) as int] == v@[b - 1 as int]);
        }
        lemma_rtrim_len_at(s, hi - b);
        assert(v@.subrange(lo as int, b as int) =~= spec_rtrim(s));
    }
    b
}

/// Whether `[lo, hi)` holds a space character.
pub fn has_space_in(v: &Vec<char>, lo: usize, hi: usize) -> (r: bool)
    requires
        lo <= hi <= v.len(),
    ensures
        r == has_space(v@.subrange(lo as int, hi as int)),
{
    let ghost s = v@.subrange(lo as int, hi as int);
    let mut i: usize = lo;
    while i < hi
        invariant
            lo <= i <= hi <= v.len(),
            s == v@.subrange(lo as int, hi as int),
            forall|j: int| 0 <= j < i - lo ==> s[j] != ' ',
        decreases hi - i,
    {
        proof {
            assert(s[i - lo] == v@[i as int]);
        }
        if v[i] == ' ' {
            return true;
        }
        i = i + 1;
    }
    false
}

/// A token made of name characters only.
pub open spec fn is_name_token(s: Seq<char>) -> bool {
    s.len() >= 1 && forall|i: int| 0 <= i < s.len() ==> spec_is_name_char(#[trigger] s[i])
}

/// Whether `[lo, hi)` is a nonempty run of name characters.
pub fn all_names_in(v: &Vec<char>, lo: usize, hi: usize) -> (r: bool)
    requires
        lo <= hi <= v.len(),
    ensures
        r == is_name_token(v@.subrange(lo as int, hi as int)),
{
    let ghost s = v@.subrange(lo as int, hi as int);
    if lo == hi {
        return false;
    }
    let mut i: usize = lo;
    while i < hi
        invariant
            lo <= i <= hi <= v.len(),
            s == v@.subrange(lo as int, hi as int),
            forall|j: int| 0 <= j < i - lo ==> spec_is_name_char(#[trigger] s[j]),
        decreases hi - i,
    {
        proof {
            assert(s[i - lo] == v@[i as int]);
        }
        if !is_name_char(v[i]) {
            return false;
        }
        i = i + 1;
    }
    true
}

/// The ranges `rs` into `s` lie between `lo` and `hi` and select exactly the
/// parts `parts`, in order.
pub open spec fn ranges_match(
    s: Seq<char>,
    rs: Seq<(usize, usize)>,
    parts: Seq<Seq<char>>,
    lo: int,
    hi: int,
) -> bool {
    &&& rs.len() == parts.len()
    &&& forall|k: int|
        0 <= k < rs.len() ==> lo <= (#[trigger] rs[k]).0 && rs[k].0 <= rs[k].1 && rs[k].1 <= hi
    &&& forall|k: int|
        0 <= k < rs.len() ==> s.subrange((#[trigger] rs[k]).0 as int, rs[k].1 as int) == parts[k]
}

pub proof fn lemma_line_len_at(s: Seq<char>, k: int)
    requires
        0 <= k <= s.len(),
        forall|j: int| 0 <= j < k ==> s[j] != '\n',
        k == s.len() || s[k] == '\n',
    ensures
        line_len(s) == k,
    decreases k,
{
    if k > 0 {
        lemma_line_len_at(s.drop_first(), k - 1);
    }
}

pub proof fn lemma_token_len_at(s: Seq<char>, k: int)
    requires
        0 <= k <= s.len(),
        forall|j: int| 0 <= j < k ==> !is_space_char(#[trigger] s[j]),
        k == s.len() || is_space_char(s[k]),
    ensures
        token_len(s) == k,
    decreases k,
{
    if k > 0 {
        lemma_token_len_at(s.drop_first(), k - 1);
    }
}

pub proof fn lemma_name_run_at(s: Seq<char>, k: int)
    requires
        0 <= k <= s.len(),
        forall|j: int| 0 <= j < k ==> spec_is_name_char(#[trigger] s[j]),
        k == s.len() || !spec_is_name_char(s[k]),
    ensures
        name_run(s) == k,
    decreases k,
{
    if k > 0 {
        lemma_name_run_at(s.drop_first(), k - 1);
    }
}

proof fn lemma_chunk_len_at(s: Seq<char>, k: int)
    requires
        0 <= k <= s.len(),
        forall|j: int|
            0 <= j < k && j + 1 < s.len() ==> ((#[trigger] s[j]) != '\n' || s[j + 1] != '\n'),
        k == s.len() || (k + 2 <= s.len() && s[k] == '\n' && s[k + 1] == '\n'),
    ensures
        chunk_len(s) == k,
    decreases k,
{
    if k > 0 {
        if s.len() < 2 {
        } else {
            assert(s[0] != '\n' || s[1] != '\n');
            let d = s.drop_first();
            assert forall|j: int|
                0 <= j < k - 1 && j + 1 < d.len() implies ((#[trigger] d[j]) != '\n' || d[j + 1]
                != '\n') by {
                assert(d[j] == s[j + 1]);
                assert(d[j + 1] == s[j + 2]);
            }
            lemma_chunk_len_at(d, k - 1);
        }
    }
}

/// Collect the characters of a string slice into a vector.
pub fn chars_of(s: &str) -> (v: Vec<char>)
    ensures
        v@ == s@,
{
    let n = s.unicode_len();
    let mut v: Vec<char> = Vec::new();
    let mut i: usize = 0;
    while i < n
        invariant
            i <= n,
            n == s@.len(),
            v@ == s@.take(i as int),
        decreases n - i,
    {
        v.push(s.get_char(i));
        i = i + 1;
        proof {
            assert(v@ =~= s@.take(i as int));
        }
    }
    proof {
        assert(s@.take(n as int) =~= s@);
    }
    v
}

/// Index of the first newline in `[lo, hi)`, or `hi`.
pub fn scan_line_end(v: &Vec<char>, lo: usize, hi: usize) -> (r: usize)
    requires
        lo <= hi <= v.len(),
    ensures
        lo <= r <= hi,
        line_len(v@.subrange(lo as int, hi as int)) == r - lo,
        r < hi ==> v@[r as int] == '\n',
        forall|j: int| lo <= j < r ==> v@[j] != '\n',
{
    let mut i: usize = lo;
    while i < hi && v[i] != '\n'
        invariant
            lo <= i <= hi <= v.len(),
            forall|j: int| lo <= j < i ==> v@[j] != '\n',
        decreases hi - i,
    {
        i = i + 1;
    }
    proof {
        let s = v@.subrange(lo as int, hi as int);
        assert forall|j: int| 0 <= j < i - lo implies s[j] != '\n' by {
            assert(s[j] == v@[lo + j]);
        }
        lemma_line_len_at(s, i - lo);
    }
    i
}

/// Index of the first blank character in `[lo, hi)`, or `hi`.
pub fn scan_token_end(v: &Vec<char>, lo: usize, hi: usize) -> (r: usize)
    requires
        lo <= hi <= v.len(),
    ensures
        lo <= r <= hi,
        token_len(v@.subrange(lo as int, hi as int)) == r - lo,
{
    let mut i: usize = lo;
    while i < hi && !space_char(v[i])
        invariant
            lo <= i <= hi <= v.len(),
            forall|j: int| lo <= j < i ==> !is_space_char(#[trigger] v@[j]),
        decreases hi - i,
    {
        i = i + 1;
    }
    proof {
        let s = v@.subrange(lo as int, hi as int);
        assert forall|j: int| 0 <= j < i - lo implies !is_space_char(s[j]) by {
            assert(s[j] == v@[lo + j]);
        }
        lemma_token_len_at(s, i - lo);
    }
    i
}

/// Index of the first non-name character in `[lo, hi)`, or `hi`.
pub fn scan_name_end(v: &Vec<char>, lo: usize, hi: usize) -> (r: usize)
    requires
        lo <= hi <= v.len(),
    ensures
        lo <= r <= hi,
        name_run(v@.subrange(lo as int, hi as int)) == r - lo,
{
    let mut i: usize = lo;
    while i < hi && is_name_char(v[i])
        invariant
            lo <= i <= hi <= v.len(),
            forall|j: int| lo <= j < i ==> spec_is_name_char(#[trigger] v@[j]),
        decreases hi - i,
    {
        i = i + 1;
    }
    proof {
        let s = v@.subrange(lo as int, hi as int);
        assert forall|j: int| 0 <= j < i - lo implies spec_is_name_char(s[j]) by {
            assert(s[j] == v@[lo + j]);
        }
        lemma_name_run_at(s, i - lo);
    }
    i
}

/// Split `[lo, hi)` into line ranges.
pub fn split_lines(v: &Vec<char>, lo: usize, hi: usize) -> (r: Vec<(usize, usize)>)
    requires
        lo <= hi <= v.len(),
    ensures
        ranges_match(v@, r@, spec_lines(v@.subrange(lo as int, hi as int)), lo as int, hi as int),
    decreases hi - lo,
{
    let ghost s = v@.subrange(lo as int, hi as int);
    if lo == hi {
        let r: Vec<(usize, usize)> = Vec::new();
        r
    } else {
        let e = scan_line_end(v, lo, hi);
        if e == hi {
            let mut r: Vec<(usize, usize)> = Vec::new();
            r.push((lo, hi));
            proof {
                assert(spec_lines(s) =~= seq![s]);
                assert(r@[0] == (lo, hi));
            }
            r
        } else {
            let mut r = split_lines(v, e + 1, hi);
            let ghost r0 = r@;
            r.insert(0, (lo, e));
            proof {
                let k = (e - lo) as int;
                assert(s.take(k) =~= v@.subrange(lo as int, e as int));
                assert(s.skip(k + 1) =~= v@.subrange(e + 1 as int, hi as int));
                let parts = spec_lines(s);
                let rest = spec_lines(s.skip(k + 1));
                assert(parts =~= seq![s.take(k)] + rest);
                assert forall|m: int| 0 <= m < r@.len() implies lo <= (#[trigger] r@[m]).0
                    && r@[m].0 <= r@[m].1 && r@[m].1 <= hi && v@.subrange(
                    r@[m].0 as int,
                    r@[m].1 as int,
                ) == parts[m] by {
                    if m == 0 {
                        assert(r@[0] == (lo, e));
                        assert(v@.subrange(lo as int, e as int) == parts[0]);
                    } else {
                        assert(r@[m] == r0[m - 1]);
                        assert(parts[m] == rest[m - 1]);
                    }
                }
            }
            r
        }
    }
}

/// Split `[lo, hi)` into blank-separated token ranges.
pub fn tokens_in(v: &Vec<char>, lo: usize, hi: usize) -> (r: Vec<(usize, usize)>)
    requires
        lo <= hi <= v.len(),
    ensures
        ranges_match(v@, r@, spec_tokens(v@.subrange(lo as int, hi as int)), lo as int, hi as int),
    decreases hi - lo,
{
    let ghost s = v@.subrange(lo as int, hi as int);
    if lo == hi {
        let r: Vec<(usize, usize)> = Vec::new();
        r
    } else if space_char(v[lo]) {
        let r = tokens_in(v, lo + 1, hi);
        proof {
            assert(s.drop_first() =~= v@.subrange(lo + 1 as int, hi as int));
        }
        r
    } else {
        let e = scan_token_end(v, lo, hi);
        assert(e > lo) by {
            assert(token_len(s) >= 1);
        }
        let mut r = tokens_in(v, e, hi);
        let ghost r0 = r@;
        r.insert(0, (lo, e));
        proof {
            let k = (e - lo) as int;
            assert(s.take(k) =~= v@.subrange(lo as int, e as int));
            assert(s.skip(k) =~= v@.subrange(e as int, hi as int));
            let parts = spec_tokens(s);
            let rest = spec_tokens(s.skip(k));
            assert(parts =~= seq![s.take(k)] + rest);
            assert forall|m: int| 0 <= m < r@.len() implies lo <= (#[trigger] r@[m]).0 && r@[m].0
                <= r@[m].1 && r@[m].1 <= hi && v@.subrange(r@[m].0 as int, r@[m].1 as int)
                == parts[m] by {
                if m == 0 {
                    assert(r@[0] == (lo, e));
                    assert(v@.subrange(lo as int, e as int) == parts[0]);
                } else {
                    assert(r@[m] == r0[m - 1]);
                    assert(parts[m] == rest[m - 1]);
                }
            }
        }
        r
    }
}

/// Index of the first blank-line separator in `[lo, hi)`, or `hi`.
fn scan_chunk_end(v: &Vec<char>, lo: usize, hi: usize) -> (r: usize)
    requires
        lo <= hi <= v.len(),
    ensures
        lo <= r <= hi,
        chunk_len(v@.subrange(lo as int, hi as int)) == r - lo,
        r < hi ==> r + 2 <= hi && v@[r as int] == '\n' && v@[r + 1 as int] == '\n',
{
    let mut i: usize = lo;
    while hi - i > 1 && !(v[i] == '\n' && v[i + 1] == '\n')
        invariant
            lo <= i <= hi <= v.len(),
            forall|j: int| lo <= j < i && j + 1 < hi ==> ((#[trigger] v@[j]) != '\n' || v@[j + 1] != '\n'),
        decreases hi - i,
    {
        i = i + 1;
    }
    let ghost s = v@.subrange(lo as int, hi as int);
    if hi - i > 1 {
        proof {
            assert forall|j: int|
                0 <= j < i - lo && j + 1 < s.len() implies ((#[trigger] s[j]) != '\n' || s[j + 1]
                != '\n') by {
                assert(s[j] == v@[lo + j]);
                assert(s[j + 1] == v@[lo + j + 1]);
            }
            assert(s[i - lo] == '\n' && s[i - lo + 1] == '\n');
            lemma_chunk_len_at(s, i - lo);
        }
        i
    } else {
        proof {
            assert forall|j: int|
                0 <= j < hi - lo && j + 1 < s.len() implies ((#[trigger] s[j]) != '\n' || s[j + 1]
                != '\n') by {
                assert(s[j] == v@[lo + j]);
                assert(s[j + 1] == v@[lo + j + 1]);
            }
            lemma_chunk_len_at(s, hi - lo);
        }
        hi
    }
}

/// Split `[lo, hi)` into chunk ranges separated by blank lines.
pub fn chunks_in(v: &Vec<char>, lo: usize, hi: usize) -> (r: Vec<(usize, usize)>)
    requires
        lo <= hi <= v.len(),
    ensures
        ranges_match(v@, r@, spec_chunks(v@.subrange(lo as int, hi as int)), lo as int, hi as int),
    decreases hi - lo,
{
    let ghost s = v@.subrange(lo as int, hi as int);
    let e = scan_chunk_end(v, lo, hi);
    if e == hi {
        let mut r: Vec<(usize, usize)> = Vec::new();
        r.push((lo, hi));
        proof {
            assert(spec_chunks(s) =~= seq![s]);
            assert(r@[0] == (lo, hi));
        }
        r
    } else {
        let mut r = chunks_in(v, e + 2, hi);
        let ghost r0 = r@;
        r.insert(0, (lo, e));
        proof {
            let k = (e - lo) as int;
            assert(s.take(k) =~= v@.subrange(lo as int, e as int));
            assert(s.skip(k + 2) =~= v@.subrange(e + 2 as int, hi as int));
            let parts = spec_chunks(s);
            let rest = spec_chunks(s.skip(k + 2));
            assert(parts =~= seq![s.take(k)] + rest);
            assert forall|m: int| 0 <= m < r@.len() implies lo <= (#[trigger] r@[m]).0 && r@[m].0
                <= r@[m].1 && r@[m].1 <= hi && v@.subrange(r@[m].0 as int, r@[m].1 as int)
                == parts[m] by {
                if m == 0 {
                    assert(r@[0] == (lo, e));
                    assert(v@.subrange(lo as int, e as int) == parts[0]);
                } else {
                    assert(r@[m] == r0[m - 1]);
                    assert(parts[m] == rest[m - 1]);
                }
            }
        }
        r
    }
}

proof fn lemma_hex_val_prefix(s: Seq<char>, j: int)
    requires
        0 <= j <= s.len(),
    ensures
        hex_val(s.take(j)) <= hex_val(s),
    decreases s.len() - j,
{
    if j == s.len() {
        assert(s.take(j) =~= s);
    } else {
        lemma_hex_val_prefix(s.drop_last(), j);
        assert(s.drop_last().take(j) =~= s.take(j));
    }
}

/// Decode a whole token in `[lo, hi)` as a `0x`-prefixed hexadecimal number.
/// Returns `None` when the token is not such a number or its value does not
/// fit in 64 bits.
pub fn hex_token_value(v: &Vec<char>, lo: usize, hi: usize) -> (r: Option<u64>)
    requires
        lo <= hi <= v.len(),
    ensures
        ({
            let t = v@.subrange(lo as int, hi as int);
            match r {
                Some(x) => is_hex_u64_token(t) && x as nat == hex_token_val(t),
                None => !is_hex_u64_token(t),
            }
        }),
{
    let ghost t = v@.subrange(lo as int, hi as int);
    if hi - lo < 3 {
        return None;
    }
    if !(v[lo] == '0' && v[lo + 1] == 'x') {
        return None;
    }
    let ghost d = t.skip(2);
    let mut acc: u64 = 0;
    let mut i: usize = lo + 2;
    while i < hi
        invariant
            lo + 2 <= i <= hi <= v.len(),
            t == v@.subrange(lo as int, hi as int),
            d == t.skip(2),
            d.len() == hi - lo - 2,
            forall|j: int| 0 <= j < i - lo - 2 ==> spec_is_hex_digit(#[trigger] d[j]),
            acc as nat == hex_val(d.take(i - lo - 2)),
        decreases hi - i,
    {
        let c = v[i];
        proof {
            assert(d[i - lo - 2] == v@[i as int]);
        }
        if !is_hex_digit(c) {
            proof {
                assert(!all_hex_digits(d));
            }
            return None;
        }
        let dv = hex_digit(c);
        proof {
            assert(hex_digit_val(c) <= 15);
        }
        let ghost m = (i - lo - 2) as int;
        proof {
            assert(d.take(m + 1).drop_last() =~= d.take(m));
            assert(d.take(m + 1).last() == d[m]);
        }
        if acc > (u64::MAX - (dv as u64)) / 16 {
            proof {
                assert(hex_val(d.take(m + 1)) > u64::MAX);
                lemma_hex_val_prefix(d, m + 1);
            }
            return None;
        }
        acc = acc * 16 + (dv as u64);
        i = i + 1;
    }
    proof {
        assert(d.take(hi - lo - 2) =~= d);
    }
    Some(acc)
}

/// Whether `pat` occurs inside `[lo, hi)` of `v`.
pub fn contains_range(v: &Vec<char>, lo: usize, hi: usize, pat: &Vec<char>) -> (r: bool)
    requires
        lo <= hi <= v.len(),
    ensures
        r == spec_contains(v@.subrange(lo as int, hi as int), pat@),
{
    let ghost s = v@.subrange(lo as int, hi as int);
    let n = pat.len();
    let m = hi - lo;
    if n == 0 {
        proof {
            assert(s.subrange(0, 0) =~= pat@);
            assert(seq_matches_at(s, pat@, 0));
        }
        return true;
    }
    if n > m {
        proof {
            assert forall|i: int| !seq_matches_at(s, pat@, i) by {}
        }
        return false;
    }
    let mut p: usize = 0;
    while p <= m - n
        invariant
            lo <= hi <= v.len(),
            n == pat@.len(),
            m == hi - lo,
            1 <= n <= m,
            p <= m - n + 1,
            s == v@.subrange(lo as int, hi as int),
            forall|i: int| 0 <= i < p ==> !seq_matches_at(s, pat@, i),
        decreases m - p,
    {
        let mut q: usize = 0;
        let mut ok = true;
        while q < n && ok
            invariant
                lo <= hi <= v.len(),
                n == pat@.len(),
                m == hi - lo,
                n <= m,
                p <= m - n,
                q <= n,
                s == v@.subrange(lo as int, hi as int),
                ok ==> forall|j: int| 0 <= j < q ==> s[p + j] == pat@[j],
                !ok ==> !seq_matches_at(s, pat@, p as int),
            decreases n - q, if ok { 1int } else { 0int },
        {
            if v[lo + p + q] != pat[q] {
                proof {
                    assert(s[p + q] == v@[lo + p + q]);
                    assert(s.subrange(p as int, p + n) != pat@) by {
                        assert(s.subrange(p as int, p + n)[q as int] == s[p + q]);
                    }
                }
                ok = false;
            } else {
                proof {
                    assert(s[p + q] == v@[lo + p + q]);
                }
                q = q + 1;
            }
        }
        if ok {
            proof {
                assert(s.subrange(p as int, p + n) =~= pat@);
                assert(seq_matches_at(s, pat@, p as int));
            }
            return true;
        }
        p = p + 1;
    }
    proof {
        assert forall|i: int| !seq_matches_at(s, pat@, i) by {
            if 0 <= i < p {
            } else {
                assert(i < 0 || i + n > m);
            }
        }
    }
    false
}

/// Whether `[lo, hi)` of `v` begins with `pat`.
pub fn starts_with_range(v: &Vec<char>, lo: usize, hi: usize, pat: &Vec<char>) -> (r: bool)
    requires
        lo <= hi <= v.len(),
    ensures
        r == spec_starts_with(v@.subrange(lo as int, hi as int), pat@),
{
    let ghost s = v@.subrange(lo as int, hi as int);
    let n = pat.len();
    if n > hi - lo {
        return false;
    }
    let mut q: usize = 0;
    while q < n
        invariant
            lo <= hi <= v.len(),
            n == pat@.len(),
            n <= hi - lo,
            q <= n,
            s == v@.subrange(lo as int, hi as int),
            forall|j: int| 0 <= j < q ==> s[j] == pat@[j],
        decreases n - q,
    {
        if v[lo + q] != pat[q] {
            proof {
                assert(s[q as int] == v@[lo + q]);
                assert(s.take(n as int) != pat@) by {
                    assert(s.take(n as int)[q as int] == s[q as int]);
                }
            }
            return false;
        }
        proof {
            assert(s[q as int] == v@[lo + q]);
        }
        q = q + 1;
    }
    proof {
        assert(s.take(n as int) =~= pat@);
    }
    true
}

/// Whether two string slices hold the same characters.
pub fn str_eq(a: &str, b: &str) -> (r: bool)
    ensures
        r == (a@ == b@),
{
    let n = a.unicode_len();
    let m = b.unicode_len();
    if n != m {
        return false;
    }
    let mut i: usize = 0;
    while i < n
        invariant
            i <= n,
            n == a@.len(),
            n == b@.len(),
            forall|j: int| 0 <= j < i ==> a@[j] == b@[j],
        decreases n - i,
    {
        if a.get_char(i) != b.get_char(i) {
            return false;
        }
        i = i + 1;
    }
    proof {
        assert(a@ =~= b@);
    }
    true
}

/// Whether every character of `[lo, hi)` is blank.
pub fn all_spaces_in(v: &Vec<char>, lo: usize, hi: usize) -> (r: bool)
    requires
        lo <= hi <= v.len(),
    ensures
        r == all_spaces_from(v@.subrange(lo as int, hi as int), 0),
{
    let ghost s = v@.subrange(lo as int, hi as int);
    let mut i: usize = lo;
    while i < hi
        invariant
            lo <= i <= hi <= v.len(),
            s == v@.subrange(lo as int, hi as int),
            forall|j: int| 0 <= j < i - lo ==> is_space_char(#[trigger] s[j]),
        decreases hi - i,
    {
        proof {
            assert(s[i - lo] == v@[i as int]);
        }
        if !space_char(v[i]) {
            return false;
        }
        i = i + 1;
    }
    true
}

} // verus!
