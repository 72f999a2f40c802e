//! Character and string helpers shared by the parser and the classifier.

use vstd::prelude::*;
use vstd::utf8::is_ascii_chars;

verus! {

/// Whether `c` has the Unicode `White_Space` property.
pub open spec fn is_whitespace(c: char) -> bool {
    let n = c as u32;
    ||| 0x09 <= n <= 0x0D
    ||| n == 0x20
    ||| n == 0x85
    ||| n == 0xA0
    ||| n == 0x1680
    ||| 0x2000 <= n <= 0x200A
    ||| n == 0x2028
    ||| n == 0x2029
    ||| n == 0x202F
    ||| n == 0x205F
    ||| n == 0x3000
}

/// Executable test for [`is_whitespace`].
pub fn char_is_whitespace(c: char) -> (res: bool)
    ensures
        res == is_whitespace(c),
{
    let n: u32 = c as u32;
    (0x09 <= n && n <= 0x0D) || n == 0x20 || n == 0x85 || n == 0xA0 || n == 0x1680 || (0x2000 <= n
        && n <= 0x200A) || n == 0x2028 || n == 0x2029 || n == 0x202F || n == 0x205F || n == 0x3000
}

/// The characters of `s`, in order.
pub fn to_chars(s: &str) -> (res: Vec<char>)
    ensures
        res@ == s@,
{
    let mut out: Vec<char> = Vec::new();
    for c in it: s.chars()
        invariant
            out@ == it.seq().take(it.index() as int),
    {
        out.push(c);
    }
    out
}

/// Whether the characters `v` spell exactly the string `lit`.
pub fn chars_eq(v: &[char], lit: &str) -> (res: bool)
    ensures
        res == (v@ == lit@),
{
    let w = to_chars(lit);
    if v.len() != w.len() {
        return false;
    }
    let mut i: usize = 0;
    while i < v.len()
        invariant
            i <= v.len(),
            v.len() == w.len(),
            w@ == lit@,
            forall|k: int| 0 <= k < i ==> v@[k] == w@[k],
        decreases v.len() - i,
    {
        if v[i] != w[i] {
            return false;
        }
        i += 1;
    }
    assert(v@ =~= w@);
    true
}

/// The ASCII lower-case form of `c`; other characters are unchanged.
pub open spec fn ascii_lower_char(c: char) -> char {
    if 'A' <= c <= 'Z' {
        ((c as u8) + 32) as char
    } else {
        c
    }
}

/// `s` with each ASCII capital replaced by its small letter.
pub open spec fn ascii_lower(s: Seq<char>) -> Seq<char> {
    Seq::new(s.len(), |i: int| ascii_lower_char(s[i]))
}

/// Executable form of [`ascii_lower_char`].
pub fn lower_char(c: char) -> (res: char)
    ensures
        res == ascii_lower_char(c),
{
    if 'A' <= c && c <= 'Z' {
        ((c as u8) + 32) as char
    } else {
        c
    }
}

/// Executable form of [`ascii_lower`].
pub fn lower_chars(v: &[char]) -> (res: Vec<char>)
    ensures
        res@ == ascii_lower(v@),
{
    let mut out: Vec<char> = Vec::new();
    let mut i: usize = 0;
    while i < v.len()
        invariant
            i <= v.len(),
            out.len() == i,
            forall|k: int| 0 <= k < i ==> out@[k] == ascii_lower_char(v@[k]),
        decreases v.len() - i,
    {
        out.push(lower_char(v[i]));
        i += 1;
    }
    assert(out@ =~= ascii_lower(v@));
    out
}

/// What `str::to_lowercase` returns for the string `s`: its lower-case
/// equivalent under the Unicode case mapping.
pub uninterp spec fn unicode_lowercase(s: Seq<char>) -> Seq<char>;

/// Calls `str::to_lowercase`. Trusted: the result depends on the characters
/// of `s` alone.
#[verifier::external_body]
fn std_lowercase(s: &str) -> (res: String)
    ensures
        res@ == unicode_lowercase(s@),
{
    s.to_lowercase()
}

/// The lower-case form used for case-insensitive lookups. On ASCII text it is
/// [`ascii_lower`]; text with other characters goes through the Unicode case
/// mapping.
pub open spec fn lowercase(s: Seq<char>) -> Seq<char> {
    if is_ascii_chars(s) {
        ascii_lower(s)
    } else {
        unicode_lowercase(s)
    }
}

/// Executable form of [`lowercase`].
pub fn lowercase_of(s: &str) -> (res: Vec<char>)
    ensures
        res@ == lowercase(s@),
{
    if s.is_ascii() {
        let v = to_chars(s);
        lower_chars(v.as_slice())
    } else {
        let l = std_lowercase(s);
        to_chars(l.as_str())
    }
}

/// `s` without its trailing whitespace.
pub open spec fn trim_end(s: Seq<char>) -> Seq<char>
    decreases s.len(),
{
    if s.len() > 0 && is_whitespace(s.last()) {
        trim_end(s.drop_last())
    } else {
        s
    }
}

/// `s` without its leading whitespace.
pub open spec fn trim_start(s: Seq<char>) -> Seq<char>
    decreases s.len(),
{
    if s.len() > 0 && is_whitespace(s.first()) {
        trim_start(s.drop_first())
    } else {
        s
    }
}

/// `s` without leading and trailing whitespace.
pub open spec fn trim(s: Seq<char>) -> Seq<char> {
    trim_start(trim_end(s))
}

/// The end of `trim_end(v[..hi])`, as an index into `v`.
pub fn trim_end_index(v: &[char], hi: usize) -> (res: usize)
    requires
        hi <= v.len(),
    ensures
        res <= hi,
        v@.take(res as int) == trim_end(v@.take(hi as int)),
{
    let mut k: usize = hi;
    while k > 0 && char_is_whitespace(v[k - 1])
        invariant
            k <= hi <= v.len(),
            trim_end(v@.take(k as int)) == trim_end(v@.take(hi as int)),
        decreases k,
    {
        assert(v@.take(k as int).drop_last() =~= v@.take(k - 1));
        k -= 1;
    }
    k
}

/// The start of `trim_start(v[lo..hi])`, as an index into `v`.
pub fn trim_start_index(v: &[char], lo: usize, hi: usize) -> (res: usize)
    requires
        lo <= hi <= v.len(),
    ensures
        lo <= res <= hi,
        v@.subrange(res as int, hi as int) == trim_start(v@.subrange(lo as int, hi as int)),
{
    let mut k: usize = lo;
    while k < hi && char_is_whitespace(v[k])
        invariant
            lo <= k <= hi <= v.len(),
            trim_start(v@.subrange(k as int, hi as int)) == trim_start(
                v@.subrange(lo as int, hi as int),
            ),
        decreases hi - k,
    {
        assert(v@.subrange(k as int, hi as int).drop_first() =~= v@.subrange(k + 1, hi as int));
        k += 1;
    }
    k
}

/// The length of the run of non-whitespace characters that `s` begins with.
pub open spec fn word_len(s: Seq<char>) -> nat
    decreases s.len(),
{
    if s.len() == 0 || is_whitespace(s[0]) {
        0
    } else {
        1 + word_len(s.drop_first())
    }
}

/// The maximal runs of non-whitespace characters of `s`, from left to right.
pub open spec fn words(s: Seq<char>) -> Seq<Seq<char>>
    decreases s.len(),
    via words_decreases
{
    if s.len() == 0 {
        Seq::empty()
    } else if is_whitespace(s[0]) {
        words(s.drop_first())
    } else {
        seq![s.take(word_len(s) as int)] + words(s.skip(word_len(s) as int))
    }
}

#[via_fn]
proof fn words_decreases(s: Seq<char>) {
    lemma_word_len_bound(s);
}

/// A leading word is no longer than the text, and not empty where the text
/// begins with a character that is no whitespace.
pub proof fn lemma_word_len_bound(s: Seq<char>)
    ensures
        word_len(s) <= s.len(),
        s.len() > 0 && !is_whitespace(s[0]) ==> word_len(s) >= 1,
    decreases s.len(),
{
    if s.len() > 0 && !is_whitespace(s[0]) {
        lemma_word_len_bound(s.drop_first());
    }
}

/// The words of `v` as index ranges: the `k`-th pair holds where the `k`-th
/// word starts and where it ends.
pub fn split_words(v: &[char]) -> (res: Vec<(usize, usize)>)
    ensures
        res.len() == words(v@).len(),
        forall|k: int|
            0 <= k < res.len() ==> {
                &&& (#[trigger] res[k]).0 <= res[k].1 <= v.len()
                &&& v@.subrange(res[k].0 as int, res[k].1 as int) == words(v@)[k]
            },
{
    let mut out: Vec<(usize, usize)> = Vec::new();
    let ghost mut done: Seq<Seq<char>> = Seq::empty();
    let mut i: usize = 0;
    assert(v@.skip(0) =~= v@);
    while i < v.len()
        invariant
            i <= v.len(),
            out.len() == done.len(),
            words(v@) =~= done + words(v@.skip(i as int)),
            forall|k: int|
                0 <= k < out.len() ==> {
                    &&& (#[trigger] out[k]).0 <= out[k].1 <= v.len()
                    &&& v@.subrange(out[k].0 as int, out[k].1 as int) == done[k]
                },
        decreases v.len() - i,
    {
        if char_is_whitespace(v[i]) {
            assert(v@.skip(i as int).drop_first() =~= v@.skip(i + 1));
            i += 1;
        } else {
            let start: usize = i;
            let mut j: usize = i;
            while j < v.len() && !char_is_whitespace(v[j])
                invariant
                    start <= j <= v.len(),
                    word_len(v@.skip(start as int)) == (j - start) + word_len(v@.skip(j as int)),
                decreases v.len() - j,
            {
                assert(v@.skip(j as int).drop_first() =~= v@.skip(j + 1));
                j += 1;
            }
            proof {
                let rest = v@.skip(start as int);
                assert(word_len(rest) == j - start);
                assert(rest.take(j - start) =~= v@.subrange(start as int, j as int));
                assert(rest.skip(j - start) =~= v@.skip(j as int));
                done = done.push(v@.subrange(start as int, j as int));
            }
            out.push((start, j));
            i = j;
        }
    }
    assert(v@.skip(v.len() as int).len() == 0);
    out
}

} // verus!
