//! Character-level text utilities the report parser is specified with:
//! ASCII case-insensitive search, whitespace trimming, tokenization and
//! decimal parsing, each with an executable form proved against its
//! specification.

use vstd::prelude::*;
use vstd::string::StrSliceExecFns;

verus! {

/// ASCII whitespace, the set the parser trims and skips.
pub open spec fn is_ws(c: char) -> bool {
    c == ' ' || c == '\t' || c == '\n' || c == '\r' || c == '\u{b}' || c == '\u{c}'
}

/// ASCII lower-casing of one character; everything else is unchanged.
pub open spec fn to_lower(c: char) -> char {
    if 'A' <= c && c <= 'Z' {
        ((c as u8) + 32) as char
    } else {
        c
    }
}

/// The needle matches the haystack at offset `i`, comparing characters
/// ASCII case-insensitively.
pub open spec fn ci_match_at(hay: Seq<char>, needle: Seq<char>, i: int) -> bool {
    &&& 0 <= i
    &&& i + needle.len() <= hay.len()
    &&& forall|j: int| 0 <= j < needle.len() ==> to_lower(hay[i + j]) == to_lower(needle[j])
}

/// The least offset at which the needle matches the haystack
/// case-insensitively, if any.
pub open spec fn first_ci(hay: Seq<char>, needle: Seq<char>) -> Option<int>
    decreases hay.len(),
{
    if ci_match_at(hay, needle, 0) {
        Some(0int)
    } else if hay.len() == 0 {
        None
    } else {
        match first_ci(hay.drop_first(), needle) {
            Some(i) => Some(i + 1),
            None => None,
        }
    }
}

proof fn lemma_ci_match_shift(hay: Seq<char>, needle: Seq<char>, i: int)
    requires
        hay.len() > 0,
        0 <= i,
    ensures
        ci_match_at(hay, needle, i + 1) <==> ci_match_at(hay.drop_first(), needle, i),
{
    if ci_match_at(hay, needle, i + 1) {
        assert forall|j: int| 0 <= j < needle.len() implies to_lower(hay.drop_first()[i + j])
            == to_lower(needle[j]) by {
            assert(hay.drop_first()[i + j] == hay[i + 1 + j]);
        }
    }
    if ci_match_at(hay.drop_first(), needle, i) {
        assert forall|j: int| 0 <= j < needle.len() implies to_lower(hay[i + 1 + j]) == to_lower(
            needle[j],
        ) by {
            assert(hay[i + 1 + j] == hay.drop_first()[i + j]);
        }
    }
}

/// `first_ci` returns exactly the least matching offset, and `None` exactly
/// when no offset matches.
pub proof fn lemma_first_ci(hay: Seq<char>, needle: Seq<char>)
    ensures
        match first_ci(hay, needle) {
            Some(i) => ci_match_at(hay, needle, i) && forall|j: int|
                0 <= j < i ==> !ci_match_at(hay, needle, j),
            None => forall|j: int| !ci_match_at(hay, needle, j),
        },
    decreases hay.len(),
{
    if ci_match_at(hay, needle, 0) {
    } else if hay.len() == 0 {
        assert forall|j: int| !ci_match_at(hay, needle, j) by {
            if 0 <= j && j + needle.len() <= hay.len() {
                assert(needle.len() == 0);
                assert(!ci_match_at(hay, needle, 0));
            }
        }
    } else {
        lemma_first_ci(hay.drop_first(), needle);
        match first_ci(hay.drop_first(), needle) {
            Some(i) => {
                lemma_ci_match_shift(hay, needle, i);
                assert forall|j: int| 0 <= j < i + 1 implies !ci_match_at(hay, needle, j) by {
                    if j == 0 {
                    } else {
                        lemma_ci_match_shift(hay, needle, j - 1);
                    }
                }
            },
            None => {
                assert forall|j: int| !ci_match_at(hay, needle, j) by {
                    if j == 0 {
                    } else if j > 0 {
                        lemma_ci_match_shift(hay, needle, j - 1);
                    }
                }
            },
        }
    }
}

/// Lower-cases one character, ASCII-only.
fn lower_char(c: char) -> (r: char)
    ensures
        r == to_lower(c),
{
    if 'A' <= c && c <= 'Z' {
        ((c as u8) + 32) as char
    } else {
        c
    }
}

/// Whether the needle matches the haystack at offset `i`, comparing
/// ASCII case-insensitively.
fn ci_match_at_exec(hay: &str, needle: &str, i: usize) -> (r: bool)
    requires
        i + needle@.len() <= hay@.len(),
    ensures
        r == ci_match_at(hay@, needle@, i as int),
{
    let h = hay.unicode_len();
    let n = needle.unicode_len();
    let mut j: usize = 0;
    while j < n
        invariant
            h == hay@.len(),
            n == needle@.len(),
            0 <= j <= n,
            i + n <= h,
            forall|k: int| 0 <= k < j ==> to_lower(hay@[i + k]) == to_lower(needle@[k]),
        decreases n - j,
    {
        let hc = lower_char(hay.get_char(i + j));
        let nc = lower_char(needle.get_char(j));
        if hc != nc {
            return false;
        }
        j += 1;
    }
    true
}

/// Finds the first ASCII case-insensitive occurrence of `needle` in `hay`.
pub fn find_ci(hay: &str, needle: &str) -> (r: Option<usize>)
    ensures
        match r {
            Some(i) => first_ci(hay@, needle@) == Some(i as int),
            None => first_ci(hay@, needle@) is None,
        },
{
    let h = hay.unicode_len();
    let n = needle.unicode_len();
    if n > h {
        proof {
            lemma_first_ci(hay@, needle@);
            if first_ci(hay@, needle@) is Some {
                let i = first_ci(hay@, needle@)->Some_0;
                assert(ci_match_at(hay@, needle@, i));
            }
        }
        return None;
    }
    let mut i: usize = 0;
    while i <= h - n
        invariant
            h == hay@.len(),
            n == needle@.len(),
            n <= h,
            0 <= i <= h - n + 1,
            forall|j: int| 0 <= j < i ==> !ci_match_at(hay@, needle@, j),
        decreases h - n + 1 - i,
    {
        if ci_match_at_exec(hay, needle, i) {
            proof {
                lemma_first_ci(hay@, needle@);
                match first_ci(hay@, needle@) {
                    Some(k) => {
                        if k < i {
                            assert(!ci_match_at(hay@, needle@, k));
                        }
                        if k > i {
                            assert(!ci_match_at(hay@, needle@, i as int));
                        }
                    },
                    None => {
                        assert(!ci_match_at(hay@, needle@, i as int));
                    },
                }
            }
            return Some(i);
        }
        i += 1;
    }
    proof {
        lemma_first_ci(hay@, needle@);
        if first_ci(hay@, needle@) is Some {
            let k = first_ci(hay@, needle@)->Some_0;
            assert(ci_match_at(hay@, needle@, k));
            assert(k + needle@.len() <= hay@.len());
            assert(!ci_match_at(hay@, needle@, k));
        }
    }
    None
}

/// The sequence with its leading ASCII whitespace removed.
pub open spec fn trim_start(s: Seq<char>) -> Seq<char>
    decreases s.len(),
{
    if s.len() > 0 && is_ws(s[0]) {
        trim_start(s.drop_first())
    } else {
        s
    }
}

/// The sequence with its trailing ASCII whitespace removed.
pub open spec fn trim_end(s: Seq<char>) -> Seq<char>
    decreases s.len(),
{
    if s.len() > 0 && is_ws(s.last()) {
        trim_end(s.drop_last())
    } else {
        s
    }
}

/// The sequence with leading and trailing ASCII whitespace removed.
pub open spec fn trim(s: Seq<char>) -> Seq<char> {
    trim_end(trim_start(s))
}

proof fn lemma_trim_start_skip(s: Seq<char>, lo: int)
    requires
        0 <= lo <= s.len(),
        forall|j: int| 0 <= j < lo ==> is_ws(s[j]),
        lo == s.len() || !is_ws(s[lo]),
    ensures
        trim_start(s) == s.skip(lo),
    decreases lo,
{
    if lo == 0 {
        assert(s.skip(0) =~= s);
    } else {
        assert(is_ws(s[0]));
        lemma_trim_start_skip(s.drop_first(), lo - 1);
        assert(s.drop_first().skip(lo - 1) =~= s.skip(lo));
    }
}

proof fn lemma_trim_end_take(s: Seq<char>, hi: int)
    requires
        0 <= hi <= s.len(),
        forall|j: int| hi <= j < s.len() ==> is_ws(s[j]),
        hi == 0 || !is_ws(s[hi - 1]),
    ensures
        trim_end(s) == s.take(hi),
    decreases s.len() - hi,
{
    if hi == s.len() {
        if s.len() > 0 {
            assert(!is_ws(s.last()));
        }
        assert(s.take(hi) =~= s);
    } else {
        assert(is_ws(s.last()));
        lemma_trim_end_take(s.drop_last(), hi);
        assert(s.drop_last().take(hi) =~= s.take(hi));
    }
}

/// ASCII whitespace test on one character.
pub fn is_ws_char(c: char) -> (r: bool)
    ensures
        r == is_ws(c),
{
    c == ' ' || c == '\t' || c == '\n' || c == '\r' || c == '\u{b}' || c == '\u{c}'
}

/// Removes leading and trailing ASCII whitespace.
pub fn trim_str<'a>(s: &'a str) -> (r: &'a str)
    ensures
        r@ == trim(s@),
{
    let len = s.unicode_len();
    let mut lo: usize = 0;
    while lo < len && is_ws_char(s.get_char(lo))
        invariant
            len == s@.len(),
            0 <= lo <= len,
            forall|j: int| 0 <= j < lo ==> is_ws(s@[j]),
        decreases len - lo,
    {
        lo += 1;
    }
    let mut hi: usize = len;
    while hi > lo && is_ws_char(s.get_char(hi - 1))
        invariant
            len == s@.len(),
            0 <= lo <= hi <= len,
            lo == len || !is_ws(s@[lo as int]),
            forall|j: int| 0 <= j < lo ==> is_ws(s@[j]),
            forall|j: int| hi <= j < len ==> is_ws(s@[j]),
        decreases hi,
    {
        hi -= 1;
    }
    proof {
        lemma_trim_start_skip(s@, lo as int);
        if hi == lo {
            lemma_trim_end_take(s@.skip(lo as int), 0);
        } else {
            lemma_trim_end_take(s@.skip(lo as int), hi - lo);
        }
        assert(s@.skip(lo as int).take(hi - lo) =~= s@.subrange(lo as int, hi as int));
    }
    s.substring_char(lo, hi)
}

/// The least index at which the character occurs, if any.
pub open spec fn find_char(s: Seq<char>, c: char) -> Option<int>
    decreases s.len(),
{
    if s.len() == 0 {
        None
    } else if s[0] == c {
        Some(0int)
    } else {
        match find_char(s.drop_first(), c) {
            Some(i) => Some(i + 1),
            None => None,
        }
    }
}

/// `find_char` returns exactly the least index holding the character, and
/// `None` exactly when the character is absent.
pub proof fn lemma_find_char(s: Seq<char>, c: char)
    ensures
        match find_char(s, c) {
            Some(i) => 0 <= i < s.len() && s[i] == c && forall|j: int| 0 <= j < i ==> s[j] != c,
            None => forall|j: int| 0 <= j < s.len() ==> s[j] != c,
        },
    decreases s.len(),
{
    if s.len() == 0 {
    } else if s[0] == c {
    } else {
        lemma_find_char(s.drop_first(), c);
        match find_char(s.drop_first(), c) {
            Some(i) => {
                assert(s[i + 1] == s.drop_first()[i]);
                assert forall|j: int| 0 <= j < i + 1 implies s[j] != c by {
                    if j > 0 {
                        assert(s.drop_first()[j - 1] == s[j]);
                    }
                }
            },
            None => {
                assert forall|j: int| 0 <= j < s.len() implies s[j] != c by {
                    if j > 0 {
                        assert(s.drop_first()[j - 1] == s[j]);
                    }
                }
            },
        }
    }
}

/// Finds the first occurrence of a character.
pub fn find_char_str(s: &str, c: char) -> (r: Option<usize>)
    ensures
        match r {
            Some(i) => find_char(s@, c) == Some(i as int),
            None => find_char(s@, c) is None,
        },
{
    let len = s.unicode_len();
    let mut i: usize = 0;
    while i < len
        invariant
            len == s@.len(),
            0 <= i <= len,
            forall|j: int| 0 <= j < i ==> s@[j] != c,
        decreases len - i,
    {
        if s.get_char(i) == c {
            proof {
                lemma_find_char(s@, c);
            }
            return Some(i);
        }
        i += 1;
    }
    proof {
        lemma_find_char(s@, c);
    }
    None
}

/// The space-separated tokens of a sequence: split on single space
/// characters, trim each piece, and keep the non-empty ones, in order.
pub open spec fn space_tokens(s: Seq<char>) -> Seq<Seq<char>>
    decreases s.len(),
    via space_tokens_decreases
{
    match find_char(s, ' ') {
        None => if trim(s).len() > 0 {
            seq![trim(s)]
        } else {
            Seq::empty()
        },
        Some(i) => {
            let head = trim(s.take(i));
            let rest = space_tokens(s.skip(i + 1));
            if head.len() > 0 {
                seq![head] + rest
            } else {
                rest
            }
        },
    }
}

#[via_fn]
proof fn space_tokens_decreases(s: Seq<char>) {
    lemma_find_char(s, ' ');
}

/// Computes the space-separated tokens of a string, each trimmed, empties
/// dropped.
pub fn space_tokens_str(s: &str) -> (r: Vec<String>)
    ensures
        r.deep_view() == space_tokens(s@),
    decreases s@.len(),
{
    proof {
        lemma_find_char(s@, ' ');
    }
    match find_char_str(s, ' ') {
        None => {
            let t = trim_str(s);
            let mut v: Vec<String> = Vec::new();
            if t.unicode_len() > 0 {
                v.push(t.to_owned());
            }
            proof {
                assert(v.deep_view() =~~= space_tokens(s@));
            }
            v
        },
        Some(i) => {
            let len = s.unicode_len();
            let head_piece = s.substring_char(0, i);
            let head = trim_str(head_piece);
            let tail = s.substring_char(i + 1, len);
            let mut rest = space_tokens_str(tail);
            proof {
                assert(head_piece@ =~= s@.take(i as int));
                assert(tail@ =~= s@.skip(i + 1));
            }
            if head.unicode_len() > 0 {
                rest.insert(0, head.to_owned());
            }
            proof {
                assert(rest.deep_view() =~~= space_tokens(s@));
            }
            rest
        },
    }
}

/// The token occurs contiguously within the window.
pub open spec fn within(t: Seq<char>, w: Seq<char>) -> bool {
    exists|lo: int, hi: int| 0 <= lo <= hi <= w.len() && t == w.subrange(lo, hi)
}

proof fn lemma_trim_start_is_skip(s: Seq<char>)
    ensures
        exists|lo: int| 0 <= lo <= s.len() && trim_start(s) == s.skip(lo),
    decreases s.len(),
{
    if s.len() > 0 && is_ws(s[0]) {
        lemma_trim_start_is_skip(s.drop_first());
        let lo = choose|lo: int|
            0 <= lo <= s.drop_first().len() && trim_start(s.drop_first()) == s.drop_first().skip(
                lo,
            );
        assert(s.drop_first().skip(lo) =~= s.skip(lo + 1));
        assert(trim_start(s) == s.skip(lo + 1));
    } else {
        assert(s.skip(0) =~= s);
        assert(trim_start(s) == s.skip(0));
    }
}

proof fn lemma_trim_end_is_take(s: Seq<char>)
    ensures
        exists|hi: int| 0 <= hi <= s.len() && trim_end(s) == s.take(hi),
    decreases s.len(),
{
    if s.len() > 0 && is_ws(s.last()) {
        lemma_trim_end_is_take(s.drop_last());
        let hi = choose|hi: int|
            0 <= hi <= s.drop_last().len() && trim_end(s.drop_last()) == s.drop_last().take(hi);
        assert(s.drop_last().take(hi) =~= s.take(hi));
        assert(trim_end(s) == s.take(hi));
    } else {
        assert(s.take(s.len() as int) =~= s);
        assert(trim_end(s) == s.take(s.len() as int));
    }
}

/// A trimmed sequence occurs contiguously within the sequence it came
/// from.
pub proof fn lemma_trim_within(s: Seq<char>)
    ensures
        within(trim(s), s),
{
    lemma_trim_start_is_skip(s);
    let lo = choose|lo: int| 0 <= lo <= s.len() && trim_start(s) == s.skip(lo);
    lemma_trim_end_is_take(s.skip(lo));
    let hi = choose|hi: int|
        0 <= hi <= s.skip(lo).len() && trim_end(s.skip(lo)) == s.skip(lo).take(hi);
    assert(s.skip(lo).take(hi) =~= s.subrange(lo, lo + hi));
    assert(trim(s) == s.subrange(lo, lo + hi));
}

/// What occurs within a subrange of a window occurs within the window.
pub proof fn lemma_within_subrange(t: Seq<char>, w: Seq<char>, a: int, b: int)
    requires
        0 <= a <= b <= w.len(),
        within(t, w.subrange(a, b)),
    ensures
        within(t, w),
{
    let p = w.subrange(a, b);
    let (lo, hi) = choose|lo: int, hi: int| 0 <= lo <= hi <= p.len() && t == p.subrange(lo, hi);
    assert(p.subrange(lo, hi) =~= w.subrange(a + lo, a + hi));
    assert(t == w.subrange(a + lo, a + hi));
}

/// Every space-separated token of a sequence occurs contiguously within
/// it.
pub proof fn lemma_space_tokens_within(s: Seq<char>)
    ensures
        forall|k: int|
            0 <= k < space_tokens(s).len() ==> #[trigger] within(space_tokens(s)[k], s),
    decreases s.len(),
{
    lemma_find_char(s, ' ');
    match find_char(s, ' ') {
        None => {
            if trim(s).len() > 0 {
                lemma_trim_within(s);
            }
        },
        Some(i) => {
            let head = trim(s.take(i));
            let rest = space_tokens(s.skip(i + 1));
            lemma_trim_within(s.take(i));
            assert(s.take(i) =~= s.subrange(0, i));
            lemma_within_subrange(head, s, 0, i);
            lemma_space_tokens_within(s.skip(i + 1));
            assert(s.skip(i + 1) =~= s.subrange(i + 1, s.len() as int));
            assert forall|k: int| 0 <= k < space_tokens(s).len() implies #[trigger] within(
                space_tokens(s)[k],
                s,
            ) by {
                let off: int = if head.len() > 0 {
                    1
                } else {
                    0
                };
                if head.len() > 0 && k == 0 {
                    assert(space_tokens(s)[0] == head);
                } else {
                    assert(space_tokens(s)[k] == rest[k - off]);
                    assert(within(rest[k - off], s.skip(i + 1)));
                    lemma_within_subrange(rest[k - off], s, i + 1, s.len() as int);
                }
            }
        },
    }
}

/// A decimal digit.
pub open spec fn is_digit(c: char) -> bool {
    '0' <= c && c <= '9'
}

/// Every character of the sequence is a decimal digit.
pub open spec fn all_digits(s: Seq<char>) -> bool {
    forall|i: int| 0 <= i < s.len() ==> is_digit(s[i])
}

/// The value of a sequence of decimal digits, most significant first.
pub open spec fn dec_val(s: Seq<char>) -> int
    decreases s.len(),
{
    if s.len() == 0 {
        0
    } else {
        dec_val(s.drop_last()) * 10 + ((s.last() as u8) - 48)
    }
}

proof fn lemma_dec_val_bounds(s: Seq<char>)
    requires
        all_digits(s),
    ensures
        dec_val(s) >= 0,
        s.len() > 0 ==> dec_val(s) >= dec_val(s.drop_last()),
    decreases s.len(),
{
    if s.len() > 0 {
        assert(all_digits(s.drop_last()));
        lemma_dec_val_bounds(s.drop_last());
        assert(is_digit(s.last()));
    }
}

/// The count a summary token yields: its decimal value if the token is an
/// unsigned integer (an optional leading `+`, then digits) that fits in
/// `u32`, and zero otherwise.
pub open spec fn parse_count(s: Seq<char>) -> u32 {
    let d = if s.len() > 0 && s[0] == '+' {
        s.drop_first()
    } else {
        s
    };
    if d.len() > 0 && all_digits(d) && dec_val(d) <= u32::MAX {
        dec_val(d) as u32
    } else {
        0u32
    }
}

/// Parses a token as a `u32` count, defaulting to zero when the token is
/// not a number or does not fit.
pub fn parse_count_str(s: &str) -> (r: u32)
    ensures
        r == parse_count(s@),
{
    let len = s.unicode_len();
    let start: usize = if len > 0 && s.get_char(0) == '+' {
        1
    } else {
        0
    };
    let ghost d: Seq<char> = s@.skip(start as int);
    proof {
        if start == 1 {
            assert(d =~= s@.drop_first());
        } else {
            assert(d =~= s@);
        }
    }
    if len == start {
        return 0;
    }
    let mut value: u64 = 0;
    let mut i: usize = start;
    while i < len
        invariant
            len == s@.len(),
            start <= i <= len,
            d == s@.skip(start as int),
            if s@.len() > 0 && s@[0] == '+' {
                start == 1 && d == s@.drop_first()
            } else {
                start == 0 && d == s@
            },
            all_digits(d.take(i - start)),
            value <= u32::MAX as u64 ==> value == dec_val(d.take(i - start)),
            value > u32::MAX as u64 ==> dec_val(d.take(i - start)) > u32::MAX,
            value <= 0xFFFF_FFFF_Fu64,
        decreases len - i,
    {
        let c = s.get_char(i);
        if c < '0' || c > '9' {
            proof {
                assert(d[i - start] == s@[i as int]);
                assert(!is_digit(c));
                assert(!all_digits(d));
            }
            return 0;
        }
        let digit: u64 = (c as u64) - 48;
        proof {
            assert(d.take(i + 1 - start).drop_last() =~= d.take(i - start));
            assert(d.take(i + 1 - start).last() == d[i - start]);
            assert(d[i - start] == s@[i as int]);
            assert(all_digits(d.take(i + 1 - start)));
            if value > u32::MAX as u64 {
                lemma_dec_val_bounds(d.take(i + 1 - start));
            }
        }
        if value <= u32::MAX as u64 {
            value = value * 10 + digit;
        }
        i += 1;
    }
    proof {
        assert(d.take(len - start) =~= d);
        assert(all_digits(d));
    }
    if value <= u32::MAX as u64 {
        value as u32
    } else {
        0
    }
}

} // verus!

