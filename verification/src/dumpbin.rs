//! The dependency-report parser and the locator's decision logic.
//!
//! The report parser turns the text captured from one `dumpbin /DEPENDENTS`
//! run into a [`Dependents`] value: the imported module names found between
//! the two section markers, and the (count, name) pairs of the trailing
//! summary table. The locator helpers build the registry subkey for a
//! toolchain candidate, derive the tool path from a compiler path, and pick
//! the winning candidate last-wins; the unverified shell around this crate
//! performs the registry reads and the process spawn and feeds plain values
//! in.

use vstd::prelude::*;
use vstd::string::{StrSliceExecFns, StringExecFns};

use crate::err::{DumpBinError, Section};
use crate::text::{
    ci_match_at, find_char, find_char_str, find_ci, first_ci, lemma_find_char, lemma_first_ci,
    lemma_space_tokens_within, lemma_within_subrange, parse_count, parse_count_str, space_tokens,
    space_tokens_str, within,
};

verus! {

/// The parsed result of one inspection run: the imported module names in
/// order of appearance (duplicates preserved), and the trailing
/// (count, name) summary pairs in order of appearance.
#[derive(Clone, Debug)]
pub struct Dependents {
    pub libraries: Vec<String>,
    pub summary: Vec<(u32, String)>,
}

impl Default for Dependents {
    /// Both fields are empty before any run has populated them.
    fn default() -> (r: Self)
        ensures
            r.libraries@ == Seq::<String>::empty(),
            r.summary@ == Seq::<(u32, String)>::empty(),
    {
        Dependents { libraries: Vec::new(), summary: Vec::new() }
    }
}

/// The marker that opens the dependency list; parsing searches for it
/// case-insensitively.
pub open spec fn dep_marker() -> Seq<char> {
    "Image has the following dependencies:"@
}

/// The marker that opens the summary table; parsing searches for it
/// case-insensitively.
pub open spec fn sum_marker() -> Seq<char> {
    "Summary"@
}

/// The offset just past the first occurrence of the dependency marker.
pub open spec fn dep_end(raw: Seq<char>) -> Option<int> {
    match first_ci(raw, dep_marker()) {
        Some(i) => Some(i + dep_marker().len()),
        None => None,
    }
}

/// The offset of the first occurrence of the summary marker.
pub open spec fn sum_start(raw: Seq<char>) -> Option<int> {
    first_ci(raw, sum_marker())
}

/// Whether the raw text carries both section markers, which is exactly when
/// parsing succeeds.
pub open spec fn parse_ok(raw: Seq<char>) -> bool {
    dep_end(raw) is Some && sum_start(raw) is Some
}

/// The window holding the dependency list: between the end of the first
/// marker and the start of the second, or empty if the second marker comes
/// first.
pub open spec fn dep_window(raw: Seq<char>) -> Seq<char> {
    let a = dep_end(raw)->Some_0;
    let b = sum_start(raw)->Some_0;
    if a <= b {
        raw.subrange(a, b)
    } else {
        Seq::empty()
    }
}

/// The window holding the summary table: everything after the end of the
/// summary marker.
pub open spec fn sum_window(raw: Seq<char>) -> Seq<char> {
    raw.subrange(sum_start(raw)->Some_0 + sum_marker().len(), raw.len() as int)
}

/// The library names the report yields: the space-separated tokens of the
/// dependency window.
pub open spec fn libraries_of(raw: Seq<char>) -> Seq<Seq<char>> {
    space_tokens(dep_window(raw))
}

/// The (count, name) pairs one summary line yields: none unless the line
/// has at least two space-separated tokens, else the first token read as a
/// count and the second as a name; further tokens are ignored.
pub open spec fn line_pairs(line: Seq<char>) -> Seq<(u32, Seq<char>)> {
    let t = space_tokens(line);
    if t.len() >= 2 {
        seq![(parse_count(t[0]), t[1])]
    } else {
        Seq::empty()
    }
}

/// The (count, name) pairs of a summary window: its newline-separated lines
/// in order, each contributing its `line_pairs`.
pub open spec fn summary_pairs(s: Seq<char>) -> Seq<(u32, Seq<char>)>
    decreases s.len(),
    via summary_pairs_decreases
{
    match find_char(s, '\n') {
        None => line_pairs(s),
        Some(i) => line_pairs(s.take(i)) + summary_pairs(s.skip(i + 1)),
    }
}

#[via_fn]
proof fn summary_pairs_decreases(s: Seq<char>) {
    lemma_find_char(s, '\n');
}

/// The summary pairs the report yields.
pub open spec fn summary_of(raw: Seq<char>) -> Seq<(u32, Seq<char>)> {
    summary_pairs(sum_window(raw))
}

/// The view of a summary vector: each name replaced by its character
/// sequence.
pub open spec fn pairs_view(s: Seq<(u32, String)>) -> Seq<(u32, Seq<char>)> {
    s.map_values(|p: (u32, String)| (p.0, p.1@))
}

/// Parses one summary line into its (count, name) pair, if the line has at
/// least two tokens.
fn line_pair_str(line: &str) -> (r: Option<(u32, String)>)
    ensures
        match r {
            Some(p) => line_pairs(line@) == seq![(p.0, p.1@)],
            None => line_pairs(line@) == Seq::<(u32, Seq<char>)>::empty(),
        },
{
    let toks = space_tokens_str(line);
    if toks.len() >= 2 {
        proof {
            assert(toks.deep_view()[0] == toks@[0]@);
            assert(toks.deep_view()[1] == toks@[1]@);
        }
        let count = parse_count_str(toks[0].as_str());
        let name = toks[1].clone();
        Some((count, name))
    } else {
        None
    }
}

/// Parses a summary window into its (count, name) pairs, line by line;
/// malformed lines contribute nothing and never fail.
fn summary_pairs_str(s: &str) -> (r: Vec<(u32, String)>)
    ensures
        pairs_view(r@) == summary_pairs(s@),
    decreases s@.len(),
{
    proof {
        lemma_find_char(s@, '\n');
    }
    match find_char_str(s, '\n') {
        None => {
            let mut v: Vec<(u32, String)> = Vec::new();
            match line_pair_str(s) {
                Some(p) => {
                    v.push(p);
                },
                None => {},
            }
            proof {
                assert(pairs_view(v@) =~~= summary_pairs(s@));
            }
            v
        },
        Some(i) => {
            let len = s.unicode_len();
            let head = s.substring_char(0, i);
            let tail = s.substring_char(i + 1, len);
            let mut rest = summary_pairs_str(tail);
            proof {
                assert(head@ =~= s@.take(i as int));
                assert(tail@ =~= s@.skip(i + 1));
            }
            match line_pair_str(head) {
                Some(p) => {
                    rest.insert(0, p);
                },
                None => {},
            }
            proof {
                assert(pairs_view(rest@) =~~= summary_pairs(s@));
            }
            rest
        },
    }
}

/// Parses the raw text captured from one inspection run.
///
/// Succeeds exactly when both section markers occur in the text
/// (case-insensitively); the result then holds exactly the tokens of the
/// two marker-bounded windows. A missing marker yields a
/// `MissingSection` error naming the dependency section if the first
/// marker is absent, the summary section otherwise, echoing the raw text.
pub fn parse_dependents(raw: &str) -> (r: Result<Dependents, DumpBinError>)
    ensures
        r is Ok <==> parse_ok(raw@),
        match r {
            Ok(d) => d.libraries.deep_view() == libraries_of(raw@) && pairs_view(d.summary@)
                == summary_of(raw@),
            Err(e) => e matches DumpBinError::MissingSection { section, raw: echoed }
                && echoed@ == raw@ && (section == Section::Dependencies <==> dep_end(raw@) is None)
                && (section == Section::Summary <==> dep_end(raw@) is Some && sum_start(raw@)
                is None),
        },
{
    let dep_m = "Image has the following dependencies:";
    let sum_m = "Summary";
    let len = raw.unicode_len();
    let a = match find_ci(raw, dep_m) {
        Some(v) => v,
        None => {
            return Err(
                DumpBinError::MissingSection {
                    section: Section::Dependencies,
                    raw: raw.to_owned(),
                },
            );
        },
    };
    let b = match find_ci(raw, sum_m) {
        Some(v) => v,
        None => {
            return Err(
                DumpBinError::MissingSection { section: Section::Summary, raw: raw.to_owned() },
            );
        },
    };
    proof {
        lemma_first_ci(raw@, dep_m@);
        lemma_first_ci(raw@, sum_m@);
        assert(ci_match_at(raw@, dep_m@, a as int));
        assert(ci_match_at(raw@, sum_m@, b as int));
    }
    let dep_m_len = dep_m.unicode_len();
    let sum_m_len = sum_m.unicode_len();
    let a_end = a + dep_m_len;
    let dep_w = if a_end <= b {
        raw.substring_char(a_end, b)
    } else {
        raw.substring_char(0, 0)
    };
    proof {
        assert(dep_w@ =~= dep_window(raw@));
    }
    let libraries = space_tokens_str(dep_w);
    let sum_w = raw.substring_char(b + sum_m_len, len);
    proof {
        assert(sum_w@ =~= sum_window(raw@));
    }
    let summary = summary_pairs_str(sum_w);
    Ok(Dependents { libraries, summary })
}

/// The count is the parsed value of some token occurring contiguously
/// within the window.
pub open spec fn count_from(w: Seq<char>, c: u32) -> bool {
    exists|t: Seq<char>| within(t, w) && c == #[trigger] parse_count(t)
}

/// Every name a summary window yields occurs contiguously within it, and
/// every count is the parsed value of a token that occurs within it.
proof fn lemma_summary_pairs_within(s: Seq<char>)
    ensures
        forall|k: int|
            0 <= k < summary_pairs(s).len() ==> #[trigger] within(summary_pairs(s)[k].1, s),
        forall|k: int|
            0 <= k < summary_pairs(s).len() ==> #[trigger] count_from(s, summary_pairs(s)[k].0),
    decreases s.len(),
{
    lemma_find_char(s, '\n');
    match find_char(s, '\n') {
        None => {
            let t = space_tokens(s);
            if t.len() >= 2 {
                lemma_space_tokens_within(s);
                assert(within(t[0], s));
                assert(within(t[1], s));
                assert(summary_pairs(s)[0].0 == parse_count(t[0]));
                assert(count_from(s, summary_pairs(s)[0].0));
            }
        },
        Some(i) => {
            let line = s.take(i);
            let head = line_pairs(line);
            let rest = summary_pairs(s.skip(i + 1));
            let t = space_tokens(line);
            lemma_space_tokens_within(line);
            assert(line =~= s.subrange(0, i));
            assert(s.skip(i + 1) =~= s.subrange(i + 1, s.len() as int));
            lemma_summary_pairs_within(s.skip(i + 1));
            assert forall|k: int| 0 <= k < summary_pairs(s).len() implies #[trigger] within(
                summary_pairs(s)[k].1,
                s,
            ) by {
                if t.len() >= 2 && k == 0 {
                    assert(summary_pairs(s)[0] == (parse_count(t[0]), t[1]));
                    assert(within(t[1], line));
                    lemma_within_subrange(t[1], s, 0, i);
                } else {
                    let off: int = head.len() as int;
                    assert(summary_pairs(s)[k] == rest[k - off]);
                    assert(within(rest[k - off].1, s.skip(i + 1)));
                    lemma_within_subrange(rest[k - off].1, s, i + 1, s.len() as int);
                }
            }
            assert forall|k: int| 0 <= k < summary_pairs(s).len() implies #[trigger] count_from(
                s,
                summary_pairs(s)[k].0,
            ) by {
                if t.len() >= 2 && k == 0 {
                    assert(summary_pairs(s)[0] == (parse_count(t[0]), t[1]));
                    assert(within(t[0], line));
                    lemma_within_subrange(t[0], s, 0, i);
                    assert(within(t[0], s) && summary_pairs(s)[0].0 == parse_count(t[0]));
                    assert(count_from(s, summary_pairs(s)[0].0));
                } else {
                    let off: int = head.len() as int;
                    assert(summary_pairs(s)[k] == rest[k - off]);
                    assert(count_from(s.skip(i + 1), rest[k - off].0));
                    let tok = choose|tok: Seq<char>|
                        within(tok, s.skip(i + 1)) && rest[k - off].0 == #[trigger] parse_count(
                            tok,
                        );
                    lemma_within_subrange(tok, s, i + 1, s.len() as int);
                    assert(within(tok, s) && summary_pairs(s)[k].0 == parse_count(tok));
                    assert(count_from(s, summary_pairs(s)[k].0));
                }
            }
        },
    }
}

/// Law: whatever the raw text, every library name the parse yields occurs
/// contiguously within the dependency window (between the end of the first
/// marker and the start of the second), every summary name occurs
/// contiguously within the summary window (after the second marker), and
/// every summary count is the parsed value of a token occurring within the
/// summary window. Nothing outside those windows is ever included.
pub proof fn lemma_report_tokens_within(raw: Seq<char>)
    ensures
        forall|k: int|
            0 <= k < libraries_of(raw).len() ==> #[trigger] within(
                libraries_of(raw)[k],
                dep_window(raw),
            ),
        forall|k: int|
            0 <= k < summary_of(raw).len() ==> #[trigger] within(
                summary_of(raw)[k].1,
                sum_window(raw),
            ),
        forall|k: int|
            0 <= k < summary_of(raw).len() ==> #[trigger] count_from(
                sum_window(raw),
                summary_of(raw)[k].0,
            ),
{
    lemma_space_tokens_within(dep_window(raw));
    lemma_summary_pairs_within(sum_window(raw));
}

/// The CPU architecture of the running process, one of the fixed tags the
/// toolchain registry is keyed by. Injected by the caller rather than read
/// from compile-time conditionals, so every branch can be exercised.
#[derive(Clone, Copy, Debug, PartialEq, Eq, Structural)]
pub enum Arch {
    X86,
    X64,
    Arm64,
    Arm,
}

impl Arch {
    /// The registry tag of this architecture.
    pub open spec fn tag_spec(self) -> Seq<char> {
        match self {
            Arch::X86 => "x86"@,
            Arch::X64 => "x64"@,
            Arch::Arm64 => "arm64"@,
            Arch::Arm => "arm"@,
        }
    }

    /// The registry tag of this architecture.
    pub fn tag(self) -> (r: &'static str)
        ensures
            r@ == self.tag_spec(),
    {
        match self {
            Arch::X86 => "x86",
            Arch::X64 => "x64",
            Arch::Arm64 => "arm64",
            Arch::Arm => "arm",
        }
    }
}

/// Builds the architecture-qualified registry subkey of one toolchain
/// candidate: the version, then the architecture tag twice, separated by
/// backslashes.
pub fn candidate_subkey(vc: &str, arch: Arch) -> (r: String)
    ensures
        r@ == vc@ + "\\"@ + arch.tag_spec() + "\\"@ + arch.tag_spec(),
{
    let mut s = String::from_str(vc);
    s.append("\\");
    s.append(arch.tag());
    s.append("\\");
    s.append(arch.tag());
    s
}

/// A path separator, either flavour.
pub open spec fn is_sep(c: char) -> bool {
    c == '\\' || c == '/'
}

/// The greatest index holding a path separator, if any.
pub open spec fn last_sep(s: Seq<char>) -> Option<int>
    decreases s.len(),
{
    if s.len() == 0 {
        None
    } else if is_sep(s.last()) {
        Some(s.len() - 1)
    } else {
        last_sep(s.drop_last())
    }
}

/// `last_sep` returns exactly the greatest separator index, and `None`
/// exactly when no separator occurs.
pub proof fn lemma_last_sep(s: Seq<char>)
    ensures
        match last_sep(s) {
            Some(i) => 0 <= i < s.len() && is_sep(s[i]) && forall|j: int|
                i < j < s.len() ==> !is_sep(s[j]),
            None => forall|j: int| 0 <= j < s.len() ==> !is_sep(s[j]),
        },
    decreases s.len(),
{
    if s.len() == 0 {
    } else if is_sep(s.last()) {
    } else {
        lemma_last_sep(s.drop_last());
        match last_sep(s.drop_last()) {
            Some(i) => {
                assert(s[i] == s.drop_last()[i]);
                assert forall|j: int| i < j < s.len() implies !is_sep(s[j]) by {
                    if j < s.len() - 1 {
                        assert(s.drop_last()[j] == s[j]);
                    }
                }
            },
            None => {
                assert forall|j: int| 0 <= j < s.len() implies !is_sep(s[j]) by {
                    if j < s.len() - 1 {
                        assert(s.drop_last()[j] == s[j]);
                    }
                }
            },
        }
    }
}

/// The conventional filename of the inspection executable.
pub open spec fn tool_name() -> Seq<char> {
    "dumpbin.exe"@
}

/// Finds the last path separator of a string.
pub fn last_sep_str(s: &str) -> (r: Option<usize>)
    ensures
        match r {
            Some(i) => last_sep(s@) == Some(i as int),
            None => last_sep(s@) is None,
        },
{
    let len = s.unicode_len();
    let mut hi: usize = len;
    while hi > 0
        invariant
            len == s@.len(),
            0 <= hi <= len,
            forall|j: int| hi <= j < len ==> !is_sep(s@[j]),
        decreases hi,
    {
        let c = s.get_char(hi - 1);
        if c == '\\' || c == '/' {
            proof {
                lemma_last_sep(s@);
                match last_sep(s@) {
                    Some(i) => {
                        if i < hi - 1 {
                            assert(!is_sep(s@[hi - 1]));
                        }
                        if i > hi - 1 {
                            assert(!is_sep(s@[i]));
                        }
                    },
                    None => {
                        assert(!is_sep(s@[hi - 1]));
                    },
                }
            }
            return Some(hi - 1);
        }
        hi -= 1;
    }
    proof {
        lemma_last_sep(s@);
        if last_sep(s@) is Some {
            let i = last_sep(s@)->Some_0;
            assert(!is_sep(s@[i]));
        }
    }
    None
}

/// Derives the inspection executable's candidate path from a compiler
/// path: the compiler's containing directory (everything up to and
/// including the last path separator, or nothing when there is none) with
/// the tool's conventional filename appended.
pub fn dumpbin_path_for(compiler: &str) -> (r: String)
    ensures
        r@ == match last_sep(compiler@) {
            Some(i) => compiler@.subrange(0, i + 1) + tool_name(),
            None => tool_name(),
        },
{
    let _len = compiler.unicode_len();
    let hi = match last_sep_str(compiler) {
        Some(i) => {
            proof {
                lemma_last_sep(compiler@);
            }
            i + 1
        },
        None => 0,
    };
    let dir = compiler.substring_char(0, hi);
    let mut r = String::from_str(dir);
    r.append("dumpbin.exe");
    r
}

/// The last candidate that produced a value: later enumeration entries
/// silently override earlier matches.
pub open spec fn last_some(s: Seq<Option<String>>) -> Option<String>
    decreases s.len(),
{
    if s.len() == 0 {
        None
    } else if s.last() is Some {
        s.last()
    } else {
        last_some(s.drop_last())
    }
}

/// Picks the winning candidate among the scan's per-entry outcomes: the
/// last entry that yielded an existing executable path wins; when no entry
/// yielded one, the scan has found nothing.
pub fn resolve(candidates: &Vec<Option<String>>) -> (r: Result<String, DumpBinError>)
    ensures
        r is Ok <==> last_some(candidates@) is Some,
        r is Ok ==> r->Ok_0 == last_some(candidates@)->Some_0,
        r is Err ==> r->Err_0 is NotFound,
{
    let n = candidates.len();
    let mut selected: Option<String> = None;
    let mut i: usize = 0;
    while i < n
        invariant
            n == candidates@.len(),
            0 <= i <= n,
            selected == last_some(candidates@.take(i as int)),
        decreases n - i,
    {
        proof {
            assert(candidates@.take(i + 1).drop_last() =~= candidates@.take(i as int));
            assert(candidates@.take(i + 1).last() == candidates@[i as int]);
        }
        match &candidates[i] {
            Some(v) => {
                selected = Some(v.clone());
            },
            None => {},
        }
        i += 1;
    }
    proof {
        assert(candidates@.take(n as int) =~= candidates@);
    }
    match selected {
        Some(v) => Ok(v),
        None => Err(DumpBinError::NotFound),
    }
}

} // verus!

