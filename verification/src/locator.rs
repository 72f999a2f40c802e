//! Locator groups: the bracketed parts of a file name, such as `(Disc 2)`
//! or `[Side B]`, that say where a file stands within its title.

use crate::parser::{extract_number, number_in};
use crate::text::{
    ascii_lower, chars_eq, lower_char, lowercase, lowercase_of, split_words, to_chars, trim_start,
    trim_start_index, words,
};
use vstd::prelude::*;

verus! {

/// What a locator group says: a number, and whether it counts sides of a
/// disc rather than discs.
#[derive(Debug, Clone, Copy, PartialEq, Eq, Structural)]
pub struct Locator {
    pub side: bool,
    pub value: u32,
}

/// Whether `c` opens or closes a group.
pub open spec fn is_delimiter(c: char) -> bool {
    c == '(' || c == ')' || c == '[' || c == ']'
}

/// The character that closes a group opened by `c`.
pub open spec fn closer_of(c: char) -> Option<char> {
    if c == '(' {
        Some(')')
    } else if c == '[' {
        Some(']')
    } else {
        None
    }
}

/// Whether `s[i..=j]` is a group: an opening delimiter, its closing
/// counterpart, and no delimiter between them.
pub open spec fn is_group(s: Seq<char>, i: int, j: int) -> bool {
    &&& 0 <= i < j < s.len()
    &&& closer_of(s[i]) == Some(s[j])
    &&& forall|k: int| i < k < j ==> !is_delimiter(#[trigger] s[k])
}

/// The index of the last delimiter before index `j`, or -1.
pub open spec fn nearest_delimiter(s: Seq<char>, j: int) -> int
    decreases j,
{
    if j <= 0 {
        -1
    } else if is_delimiter(s[j - 1]) {
        j - 1
    } else {
        nearest_delimiter(s, j - 1)
    }
}

/// Where the group that ends at index `j` starts, if one ends there.
pub open spec fn group_start(s: Seq<char>, j: int) -> Option<int> {
    let i = nearest_delimiter(s, j);
    if 0 <= i < j < s.len() && closer_of(s[i]) == Some(s[j]) {
        Some(i)
    } else {
        None
    }
}

/// The nearest delimiter lies before `j`, and nothing between it and `j` is
/// a delimiter.
pub proof fn lemma_nearest_delimiter(s: Seq<char>, j: int)
    requires
        0 <= j <= s.len(),
    ensures
        -1 <= nearest_delimiter(s, j) < j,
        nearest_delimiter(s, j) >= 0 ==> is_delimiter(s[nearest_delimiter(s, j)]),
        forall|k: int| nearest_delimiter(s, j) < k < j ==> !is_delimiter(#[trigger] s[k]),
    decreases j,
{
    if j > 0 && !is_delimiter(s[j - 1]) {
        lemma_nearest_delimiter(s, j - 1);
    }
}

/// A group ends at `j` exactly where `group_start` finds its start, and
/// that start is the only one.
pub proof fn lemma_group_start(s: Seq<char>, i: int, j: int)
    requires
        0 <= j < s.len(),
    ensures
        is_group(s, i, j) <==> group_start(s, j) == Some(i),
{
    lemma_nearest_delimiter(s, j);
    let n = nearest_delimiter(s, j);
    if is_group(s, i, j) {
        if n < i {
            assert(is_delimiter(s[i]));
        }
        if n > i {
            assert(!is_delimiter(s[n]));
        }
    }
}

fn char_is_delimiter(c: char) -> (res: bool)
    ensures
        res == is_delimiter(c),
{
    c == '(' || c == ')' || c == '[' || c == ']'
}

/// Executable form of [`group_start`].
pub fn find_group_start(chars: &[char], j: usize) -> (res: Option<usize>)
    requires
        j < chars.len(),
    ensures
        match res {
            Some(i) => group_start(chars@, j as int) == Some(i as int),
            None => group_start(chars@, j as int) is None,
        },
{
    if chars[j] != ')' && chars[j] != ']' {
        return None;
    }
    let mut k: usize = j;
    while k > 0 && !char_is_delimiter(chars[k - 1])
        invariant
            k <= j < chars.len(),
            nearest_delimiter(chars@, k as int) == nearest_delimiter(chars@, j as int),
        decreases k,
    {
        k -= 1;
    }
    if k == 0 {
        return None;
    }
    let i: usize = k - 1;
    if (chars[i] == '(' && chars[j] == ')') || (chars[i] == '[' && chars[j] == ']') {
        Some(i)
    } else {
        None
    }
}

/// Whether `c` is an ASCII letter.
pub open spec fn is_letter(c: char) -> bool {
    'a' <= c <= 'z' || 'A' <= c <= 'Z'
}

/// The length of the run of ASCII letters that `s` begins with.
pub open spec fn letters_len(s: Seq<char>) -> nat
    decreases s.len(),
{
    if s.len() == 0 || !is_letter(s[0]) {
        0
    } else {
        1 + letters_len(s.drop_first())
    }
}

/// The word that a group begins with: the leading ASCII letters of its
/// content, leading whitespace aside, in lower case.
pub open spec fn leading_word(content: Seq<char>) -> Seq<char> {
    let t = trim_start(content);
    ascii_lower(t.take(letters_len(t) as int))
}

/// The kind of locator that a leading word announces: `side` counts
/// sides; `disc`, `disk`, `cd`, `floppy` and `part` count discs. The
/// result says whether sides are counted.
pub open spec fn keyword_kind(word: Seq<char>) -> Option<bool> {
    if word == "side"@ {
        Some(true)
    } else if word == "disc"@ || word == "disk"@ || word == "cd"@ || word == "floppy"@ || word
        == "part"@ {
        Some(false)
    } else {
        None
    }
}

/// Whether a group's content is one of the names of floppy images that
/// carry no number: the lone word `boot` or `save`, in any case.
pub open spec fn is_special(content: Seq<char>) -> bool {
    let w = words(content);
    w.len() == 1 && (lowercase(w[0]) == "boot"@ || lowercase(w[0]) == "save"@)
}

/// What a group's content says, given the number read from it. A content
/// without a number says nothing. With a number it is a locator where it
/// begins with a keyword, or is a special name, which counts discs.
pub open spec fn locator_given(content: Seq<char>, number: Option<u32>) -> Option<Locator> {
    match number {
        None => None,
        Some(n) => match keyword_kind(leading_word(content)) {
            Some(side) => Some(Locator { side, value: n }),
            None => if is_special(content) {
                Some(Locator { side: false, value: n })
            } else {
                None
            },
        },
    }
}

/// What a group's content says.
pub open spec fn locator_of(content: Seq<char>) -> Option<Locator> {
    locator_given(content, number_in(content))
}

fn leading_word_of(chars: &[char]) -> (res: Vec<char>)
    ensures
        res@ == leading_word(chars@),
{
    let n: usize = chars.len();
    let lo: usize = trim_start_index(chars, 0, n);
    assert(chars@.subrange(0, n as int) =~= chars@);
    let ghost t = chars@.subrange(lo as int, n as int);
    let mut out: Vec<char> = Vec::new();
    let mut k: usize = lo;
    while k < n && (('a' <= chars[k] && chars[k] <= 'z') || ('A' <= chars[k] && chars[k] <= 'Z'))
        invariant
            lo <= k <= n,
            n == chars.len(),
            t == chars@.subrange(lo as int, n as int),
            letters_len(t) == (k - lo) + letters_len(chars@.subrange(k as int, n as int)),
            out@ == ascii_lower(chars@.subrange(lo as int, k as int)),
        decreases n - k,
    {
        assert(chars@.subrange(k as int, n as int).drop_first() =~= chars@.subrange(
            k + 1,
            n as int,
        ));
        out.push(lower_char(chars[k]));
        assert(out@ =~= ascii_lower(chars@.subrange(lo as int, k + 1)));
        k += 1;
    }
    assert(t.take(k - lo) =~= chars@.subrange(lo as int, k as int));
    out
}

fn keyword_kind_of(word: &[char]) -> (res: Option<bool>)
    ensures
        res == keyword_kind(word@),
{
    if chars_eq(word, "side") {
        Some(true)
    } else if chars_eq(word, "disc") || chars_eq(word, "disk") || chars_eq(word, "cd") || chars_eq(
        word,
        "floppy",
    ) || chars_eq(word, "part") {
        Some(false)
    } else {
        None
    }
}

fn is_special_name(content: &str, chars: &[char]) -> (res: bool)
    requires
        chars@ == content@,
    ensures
        res == is_special(content@),
{
    let ranges = split_words(chars);
    if ranges.len() != 1 {
        return false;
    }
    let (a, b) = ranges[0];
    let lower = lowercase_of(content.substring_char(a, b));
    chars_eq(lower.as_slice(), "boot") || chars_eq(lower.as_slice(), "save")
}

/// What a group's content says once its number has been read: `number` is
/// the number found in `content`, if any.
pub fn locator_with_number(content: &str, number: Option<u32>) -> (res: Option<Locator>)
    ensures
        res == locator_given(content@, number),
{
    match number {
        None => None,
        Some(n) => {
            let chars = to_chars(content);
            let word = leading_word_of(chars.as_slice());
            match keyword_kind_of(word.as_slice()) {
                Some(side) => Some(Locator { side, value: n }),
                None => {
                    if is_special_name(content, chars.as_slice()) {
                        Some(Locator { side: false, value: n })
                    } else {
                        None
                    }
                },
            }
        },
    }
}

/// Reads a group's content: the number in it, and what kind of locator it
/// is.
pub fn read_locator(content: &str) -> (res: Option<Locator>)
    ensures
        res == locator_of(content@),
{
    locator_with_number(content, extract_number(content))
}

/// The last locator group of `s` that ends before index `end`: its start,
/// its end and what it says. With `disc_only`, groups that count sides are
/// passed over.
pub open spec fn last_locator(s: Seq<char>, end: int, disc_only: bool) -> Option<
    (int, int, Locator),
>
    decreases end,
{
    if end <= 0 {
        None
    } else {
        let j = end - 1;
        match group_start(s, j) {
            Some(i) => match locator_of(s.subrange(i + 1, j)) {
                Some(l) if !(disc_only && l.side) => Some((i, j, l)),
                _ => last_locator(s, j, disc_only),
            },
            None => last_locator(s, j, disc_only),
        }
    }
}

/// What [`last_locator`] finds is a group that ends before `end` and says
/// what is reported; no later group before `end` is an accepted locator.
pub proof fn lemma_last_locator(s: Seq<char>, end: int, disc_only: bool)
    requires
        0 <= end <= s.len(),
    ensures
        match last_locator(s, end, disc_only) {
            Some((i, j, l)) => {
                &&& is_group(s, i, j)
                &&& j < end
                &&& locator_of(s.subrange(i + 1, j)) == Some(l)
                &&& !(disc_only && l.side)
                &&& forall|a: int, b: int|
                    j < b < end && is_group(s, a, b) ==> match locator_of(s.subrange(a + 1, b)) {
                        Some(m) => disc_only && m.side,
                        None => true,
                    }
            },
            None => forall|a: int, b: int|
                b < end && is_group(s, a, b) ==> match locator_of(s.subrange(a + 1, b)) {
                    Some(m) => disc_only && m.side,
                    None => true,
                },
        },
    decreases end,
{
    if end > 0 {
        let j = end - 1;
        lemma_last_locator(s, j, disc_only);
        assert forall|a: int| is_group(s, a, j) <==> group_start(s, j) == Some(a) by {
            lemma_group_start(s, a, j);
        }
    }
}

/// Executable form of [`last_locator`].
pub fn find_last_locator(stem: &str, chars: &[char], end: usize, disc_only: bool) -> (res: Option<
    (usize, usize, Locator),
>)
    requires
        chars@ == stem@,
        end <= chars.len(),
    ensures
        match res {
            Some((i, j, l)) => last_locator(stem@, end as int, disc_only) == Some(
                (i as int, j as int, l),
            ) && i < j < end,
            None => last_locator(stem@, end as int, disc_only) is None,
        },
{
    let mut e: usize = end;
    while e > 0
        invariant
            e <= end <= chars.len(),
            chars@ == stem@,
            last_locator(stem@, e as int, disc_only) == last_locator(
                stem@,
                end as int,
                disc_only,
            ),
        decreases e,
    {
        let j: usize = e - 1;
        if let Some(i) = find_group_start(chars, j) {
            if let Some(l) = read_locator(stem.substring_char(i + 1, j)) {
                if !(disc_only && l.side) {
                    return Some((i, j, l));
                }
            }
        }
        e = j;
    }
    None
}

/// Text without a closing delimiter holds no locator group.
pub proof fn lemma_no_group_no_locator(s: Seq<char>, end: int, disc_only: bool)
    requires
        0 <= end <= s.len(),
        forall|i: int| 0 <= i < s.len() ==> #[trigger] s[i] != ')' && s[i] != ']',
    ensures
        last_locator(s, end, disc_only) is None,
    decreases end,
{
    if end > 0 {
        lemma_no_group_no_locator(s, end - 1, disc_only);
        lemma_nearest_delimiter(s, end - 1);
    }
}

} // verus!
