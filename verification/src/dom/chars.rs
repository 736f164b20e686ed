//! Character classes of the markup grammar and runs of characters.

use vstd::prelude::*;

verus! {

/// The characters that the grammar skips between nodes and between attributes:
/// those with the Unicode property `White_Space`.
pub open spec fn is_whitespace(c: char) -> bool {
    let n = c as u32;
    ||| 0x09 <= n <= 0x0D
    ||| n == 0x20
    ||| n == 0x85
    ||| n == 0xA0
    ||| n == 0x1680
    ||| 0x2000 <= n <= 0x200A
    ||| n == 0x2028
    ||| n == 0x2029
    ||| n == 0x202F
    ||| n == 0x205F
    ||| n == 0x3000
}

/// The characters of tag names and attribute names: ASCII letters and digits.
pub open spec fn is_tag_char(c: char) -> bool {
    ||| 'a' <= c <= 'z'
    ||| 'A' <= c <= 'Z'
    ||| '0' <= c <= '9'
}

/// Whether `s` is a name, as tags and attributes have them: it holds ASCII
/// letters and digits only. The empty name is one.
pub open spec fn is_name(s: Seq<char>) -> bool {
    forall|i: int| 0 <= i < s.len() ==> is_tag_char(#[trigger] s[i])
}

/// Tells whether `c` is a whitespace character.
pub fn whitespace(c: char) -> (b: bool)
    ensures
        b == is_whitespace(c),
{
    let n: u32 = c as u32;
    (0x09 <= n && n <= 0x0D) || n == 0x20 || n == 0x85 || n == 0xA0 || n == 0x1680 || (0x2000 <= n
        && n <= 0x200A) || n == 0x2028 || n == 0x2029 || n == 0x202F || n == 0x205F || n == 0x3000
}

/// Tells whether `c` may stand in a tag name or an attribute name.
pub fn tag_char(c: char) -> (b: bool)
    ensures
        b == is_tag_char(c),
{
    ('a' <= c && c <= 'z') || ('A' <= c && c <= 'Z') || ('0' <= c && c <= '9')
}

/// Tells whether `c` may stand in text: every character but `<` may.
pub fn text_char(c: char) -> (b: bool)
    ensures
        b == (c != '<'),
{
    c != '<'
}

/// The whitespace characters, as a predicate.
pub open spec fn whitespace_chars() -> spec_fn(char) -> bool {
    |c: char| is_whitespace(c)
}

/// The characters of names, as a predicate.
pub open spec fn tag_chars() -> spec_fn(char) -> bool {
    |c: char| is_tag_char(c)
}

/// Every character but `stop`, as a predicate.
pub open spec fn all_but(stop: char) -> spec_fn(char) -> bool {
    |c: char| c != stop
}

/// Where the longest run of characters that satisfy `pred` ends, for the run
/// that begins at `start`: the index of the first character from `start` on
/// that fails `pred`, or the length of `s` if there is none.
pub open spec fn run_end(s: Seq<char>, start: int, pred: spec_fn(char) -> bool) -> int
    decreases s.len() - start,
{
    if 0 <= start < s.len() && pred(s[start]) {
        run_end(s, start + 1, pred)
    } else {
        start
    }
}

/// `run_end` stays within the sequence, everything before it satisfies the
/// predicate, and the character at it, if any, does not.
pub proof fn lemma_run_end(s: Seq<char>, start: int, pred: spec_fn(char) -> bool)
    requires
        0 <= start <= s.len(),
    ensures
        start <= run_end(s, start, pred) <= s.len(),
        forall|i: int| start <= i < run_end(s, start, pred) ==> pred(#[trigger] s[i]),
        run_end(s, start, pred) < s.len() ==> !pred(s[run_end(s, start, pred)]),
    decreases s.len() - start,
{
    if start < s.len() && pred(s[start]) {
        lemma_run_end(s, start + 1, pred);
    }
}

/// A run that cannot be extended is the longest one: `run_end` is the only
/// index with the three properties of `lemma_run_end`.
pub proof fn lemma_run_end_unique(s: Seq<char>, start: int, end: int, pred: spec_fn(char) -> bool)
    requires
        0 <= start <= end <= s.len(),
        forall|i: int| start <= i < end ==> pred(#[trigger] s[i]),
        end < s.len() ==> !pred(s[end]),
    ensures
        run_end(s, start, pred) == end,
    decreases end - start,
{
    if start < end {
        lemma_run_end_unique(s, start + 1, end, pred);
    }
}

} // verus!
