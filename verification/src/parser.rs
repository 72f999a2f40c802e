//! Reading disc numbers out of text: digits, English number words and
//! single capital letters.

use crate::locator::{find_last_locator, last_locator, lemma_no_group_no_locator, Locator};
use crate::text::{
    chars_eq, lowercase, lowercase_of, split_words, to_chars, trim, trim_end, trim_end_index,
    trim_start_index, words,
};
use crate::types::DiscNumber;
use regex::Regex;
use vstd::prelude::*;
use vstd::string::StringExecFns;

verus! {

/// The number that a lower-case English numeral stands for. Besides zero to
/// thirty-one the table knows `boot` (0) and `save` (99), the names of
/// floppy images that carry no number.
pub open spec fn numeral_value(w: Seq<char>) -> Option<u32> {
    if w == "zero"@ {
        Some(0u32)
    } else if w == "one"@ {
        Some(1u32)
    } else if w == "two"@ {
        Some(2u32)
    } else if w == "three"@ {
        Some(3u32)
    } else if w == "four"@ {
        Some(4u32)
    } else if w == "five"@ {
        Some(5u32)
    } else if w == "six"@ {
        Some(6u32)
    } else if w == "seven"@ {
        Some(7u32)
    } else if w == "eight"@ {
        Some(8u32)
    } else if w == "nine"@ {
        Some(9u32)
    } else if w == "ten"@ {
        Some(10u32)
    } else if w == "eleven"@ {
        Some(11u32)
    } else if w == "twelve"@ {
        Some(12u32)
    } else if w == "thirteen"@ {
        Some(13u32)
    } else if w == "fourteen"@ {
        Some(14u32)
    } else if w == "fifteen"@ {
        Some(15u32)
    } else if w == "sixteen"@ {
        Some(16u32)
    } else if w == "seventeen"@ {
        Some(17u32)
    } else if w == "eighteen"@ {
        Some(18u32)
    } else if w == "nineteen"@ {
        Some(19u32)
    } else if w == "twenty"@ {
        Some(20u32)
    } else if w == "twenty-one"@ {
        Some(21u32)
    } else if w == "twenty-two"@ {
        Some(22u32)
    } else if w == "twenty-three"@ {
        Some(23u32)
    } else if w == "twenty-four"@ {
        Some(24u32)
    } else if w == "twenty-five"@ {
        Some(25u32)
    } else if w == "twenty-six"@ {
        Some(26u32)
    } else if w == "twenty-seven"@ {
        Some(27u32)
    } else if w == "twenty-eight"@ {
        Some(28u32)
    } else if w == "twenty-nine"@ {
        Some(29u32)
    } else if w == "thirty"@ {
        Some(30u32)
    } else if w == "thirty-one"@ {
        Some(31u32)
    } else if w == "boot"@ {
        Some(0u32)
    } else if w == "save"@ {
        Some(99u32)
    } else {
        None
    }
}

/// The place in the alphabet of a word that is one ASCII capital: `A` is 1,
/// `Z` is 26. Small letters have no value.
pub open spec fn letter_value(word: Seq<char>) -> Option<u32> {
    if word.len() == 1 && 'A' <= word[0] <= 'Z' {
        Some((word[0] as u32 - 'A' as u32 + 1) as u32)
    } else {
        None
    }
}

/// The number that one word stands for: a numeral in any case, else a single
/// capital letter.
pub open spec fn word_value(word: Seq<char>) -> Option<u32> {
    match numeral_value(lowercase(word)) {
        Some(n) => Some(n),
        None => letter_value(word),
    }
}

fn numeral(w: &[char]) -> (res: Option<u32>)
    ensures
        res == numeral_value(w@),
{
    if chars_eq(w, "zero") {
        Some(0)
    } else if chars_eq(w, "one") {
        Some(1)
    } else if chars_eq(w, "two") {
        Some(2)
    } else if chars_eq(w, "three") {
        Some(3)
    } else if chars_eq(w, "four") {
        Some(4)
    } else if chars_eq(w, "five") {
        Some(5)
    } else if chars_eq(w, "six") {
        Some(6)
    } else if chars_eq(w, "seven") {
        Some(7)
    } else if chars_eq(w, "eight") {
        Some(8)
    } else if chars_eq(w, "nine") {
        Some(9)
    } else if chars_eq(w, "ten") {
        Some(10)
    } else if chars_eq(w, "eleven") {
        Some(11)
    } else if chars_eq(w, "twelve") {
        Some(12)
    } else if chars_eq(w, "thirteen") {
        Some(13)
    } else if chars_eq(w, "fourteen") {
        Some(14)
    } else if chars_eq(w, "fifteen") {
        Some(15)
    } else if chars_eq(w, "sixteen") {
        Some(16)
    } else if chars_eq(w, "seventeen") {
        Some(17)
    } else if chars_eq(w, "eighteen") {
        Some(18)
    } else if chars_eq(w, "nineteen") {
        Some(19)
    } else if chars_eq(w, "twenty") {
        Some(20)
    } else if chars_eq(w, "twenty-one") {
        Some(21)
    } else if chars_eq(w, "twenty-two") {
        Some(22)
    } else if chars_eq(w, "twenty-three") {
        Some(23)
    } else if chars_eq(w, "twenty-four") {
        Some(24)
    } else if chars_eq(w, "twenty-five") {
        Some(25)
    } else if chars_eq(w, "twenty-six") {
        Some(26)
    } else if chars_eq(w, "twenty-seven") {
        Some(27)
    } else if chars_eq(w, "twenty-eight") {
        Some(28)
    } else if chars_eq(w, "twenty-nine") {
        Some(29)
    } else if chars_eq(w, "thirty") {
        Some(30)
    } else if chars_eq(w, "thirty-one") {
        Some(31)
    } else if chars_eq(w, "boot") {
        Some(0)
    } else if chars_eq(w, "save") {
        Some(99)
    } else {
        None
    }
}

/// Convert English word numerals and single letters to numbers
pub fn word_to_number(word: &str) -> (res: Option<u32>)
    ensures
        res == word_value(word@),
{
    let lower = lowercase_of(word);
    match numeral(lower.as_slice()) {
        Some(n) => Some(n),
        None => {
            let chars = to_chars(word);
            if chars.len() == 1 && 'A' <= chars[0] && chars[0] <= 'Z' {
                Some(chars[0] as u32 - 'A' as u32 + 1)
            } else {
                None
            }
        },
    }
}

/// Every numeral of the table has three letters or more.
pub proof fn lemma_numerals_are_words(w: Seq<char>)
    requires
        numeral_value(w) is Some,
    ensures
        w.len() >= 3,
{
    reveal_strlit("zero");
    reveal_strlit("one");
    reveal_strlit("two");
    reveal_strlit("three");
    reveal_strlit("four");
    reveal_strlit("five");
    reveal_strlit("six");
    reveal_strlit("seven");
    reveal_strlit("eight");
    reveal_strlit("nine");
    reveal_strlit("ten");
    reveal_strlit("eleven");
    reveal_strlit("twelve");
    reveal_strlit("thirteen");
    reveal_strlit("fourteen");
    reveal_strlit("fifteen");
    reveal_strlit("sixteen");
    reveal_strlit("seventeen");
    reveal_strlit("eighteen");
    reveal_strlit("nineteen");
    reveal_strlit("twenty");
    reveal_strlit("twenty-one");
    reveal_strlit("twenty-two");
    reveal_strlit("twenty-three");
    reveal_strlit("twenty-four");
    reveal_strlit("twenty-five");
    reveal_strlit("twenty-six");
    reveal_strlit("twenty-seven");
    reveal_strlit("twenty-eight");
    reveal_strlit("twenty-nine");
    reveal_strlit("thirty");
    reveal_strlit("thirty-one");
    reveal_strlit("boot");
    reveal_strlit("save");
}

/// A word of one ASCII letter stands for its place in the alphabet where
/// the letter is a capital, and for nothing where it is small.
pub proof fn lemma_single_letter_value(c: char)
    requires
        'A' <= c <= 'Z' || 'a' <= c <= 'z',
    ensures
        'A' <= c <= 'Z' ==> word_value(seq![c]) == Some((c as u32 - 'A' as u32 + 1) as u32),
        'a' <= c <= 'z' ==> word_value(seq![c]) is None,
{
    let word = seq![c];
    assert(vstd::utf8::is_ascii_chars(word));
    assert(lowercase(word).len() == 1);
    if numeral_value(lowercase(word)) is Some {
        lemma_numerals_are_words(lowercase(word));
    }
}

/// Whether `c` is one of the ASCII digits.
pub open spec fn is_digit(c: char) -> bool {
    '0' <= c <= '9'
}

/// The number that the digits of `s` spell in base ten, leading zeros
/// ignored.
pub open spec fn decimal_value(s: Seq<char>) -> nat
    decreases s.len(),
{
    if s.len() == 0 {
        0
    } else {
        (decimal_value(s.drop_last()) * 10 + (s.last() as u32 - '0' as u32)) as nat
    }
}

/// What a run of characters reads as: its base-ten value where it is not
/// empty, holds ASCII digits only and the value fits 32 bits.
pub open spec fn decimal(s: Seq<char>) -> Option<u32> {
    if s.len() > 0 && (forall|i: int| 0 <= i < s.len() ==> is_digit(#[trigger] s[i]))
        && decimal_value(s) <= u32::MAX {
        Some(decimal_value(s) as u32)
    } else {
        None
    }
}

/// A run of digits spells at least what any of its beginnings spells.
pub proof fn lemma_decimal_value_grows(s: Seq<char>, k: int)
    requires
        0 <= k <= s.len(),
        forall|i: int| 0 <= i < s.len() ==> is_digit(#[trigger] s[i]),
    ensures
        decimal_value(s.take(k)) <= decimal_value(s),
    decreases s.len() - k,
{
    if k < s.len() {
        lemma_decimal_value_grows(s, k + 1);
        assert(s.take(k + 1).drop_last() =~= s.take(k));
    } else {
        assert(s.take(k) =~= s);
    }
}

/// Zeros in front of a run of digits do not change what it spells: `007`
/// reads as `7` does.
pub proof fn lemma_leading_zero(s: Seq<char>)
    ensures
        decimal_value(seq!['0'] + s) == decimal_value(s),
        s.len() > 0 ==> decimal(seq!['0'] + s) == decimal(s),
    decreases s.len(),
{
    let z = seq!['0'] + s;
    if s.len() == 0 {
        assert(z.drop_last() =~= Seq::<char>::empty());
        assert(z.last() == '0');
        assert(decimal_value(z.drop_last()) == 0);
        assert(decimal_value(z) == 0);
    } else {
        lemma_leading_zero(s.drop_last());
        assert(z.drop_last() =~= seq!['0'] + s.drop_last());
        assert(z.last() == s.last());
        assert(decimal_value(z) == (decimal_value(z.drop_last()) * 10 + (z.last() as u32
            - '0' as u32)) as nat);
        if forall|i: int| 0 <= i < s.len() ==> is_digit(#[trigger] s[i]) {
            assert forall|i: int| 0 <= i < z.len() implies is_digit(#[trigger] z[i]) by {
                if i > 0 {
                    assert(z[i] == s[i - 1]);
                }
            }
        } else {
            let i = choose|i: int| 0 <= i < s.len() && !is_digit(#[trigger] s[i]);
            assert(z[i + 1] == s[i]);
        }
    }
}

/// A capital letter and the digit of its place in the alphabet stand for
/// the same number: `A` for what `1` spells, `I` for what `9` spells.
pub proof fn lemma_letter_matches_digit(letter: char, digit: char)
    requires
        'A' <= letter <= 'I',
        '1' <= digit <= '9',
        digit as u32 - '0' as u32 == letter as u32 - 'A' as u32 + 1,
    ensures
        word_value(seq![letter]) == decimal(seq![digit]),
{
    lemma_single_letter_value(letter);
    let d = seq![digit];
    assert(d.drop_last() =~= Seq::<char>::empty());
    assert(decimal_value(d.drop_last()) == 0);
    assert(decimal_value(d) == digit as u32 - '0' as u32);
}

/// Executable form of [`decimal`].
pub fn parse_decimal(s: &[char]) -> (res: Option<u32>)
    ensures
        res == decimal(s@),
{
    if s.len() == 0 {
        return None;
    }
    let mut acc: u64 = 0;
    let mut i: usize = 0;
    assert(s@.take(0) =~= Seq::<char>::empty());
    while i < s.len()
        invariant
            i <= s.len(),
            acc == decimal_value(s@.take(i as int)),
            acc <= u32::MAX,
            forall|k: int| 0 <= k < i ==> is_digit(#[trigger] s@[k]),
        decreases s.len() - i,
    {
        let c = s[i];
        if !('0' <= c && c <= '9') {
            return None;
        }
        let d: u64 = (c as u32 - '0' as u32) as u64;
        assert(s@.take(i + 1).drop_last() =~= s@.take(i as int));
        acc = acc * 10 + d;
        i += 1;
        if acc > 0xFFFF_FFFF {
            proof {
                if forall|k: int| 0 <= k < s.len() ==> is_digit(#[trigger] s@[k]) {
                    lemma_decimal_value_grows(s@, i as int);
                }
            }
            return None;
        }
    }
    assert(s@.take(s.len() as int) =~= s@);
    Some(acc as u32)
}

/// What `Regex::find` returns for the pattern `\d+` on the text `s`: the
/// text of the first match, if there is one.
pub uninterp spec fn first_digit_run(s: Seq<char>) -> Option<Seq<char>>;

/// Searches `s` with the regular expression `\d+` and hands back the text of
/// the leftmost match. Trusted: the match depends on the characters of `s`
/// alone.
#[verifier::external_body]
fn find_digit_run(s: &str) -> (res: Option<String>)
    ensures
        match res {
            Some(run) => first_digit_run(s@) == Some(run@),
            None => first_digit_run(s@) is None,
        },
{
    Regex::new(r"\d+").unwrap().find(s).map(|m| m.as_str().to_string())
}

/// The number that a list of words stands for: that of a lone word, else
/// that of the second word, the first being taken for a keyword.
pub open spec fn words_value(w: Seq<Seq<char>>) -> Option<u32> {
    if w.len() == 0 {
        None
    } else if w.len() == 1 {
        word_value(w[0])
    } else {
        word_value(w[1])
    }
}

/// The number in the text `s`, given the first run of digits found in it:
/// the run's value where it reads as a 32-bit number, else the value of the
/// words of `s`.
pub open spec fn number_given_run(s: Seq<char>, run: Option<Seq<char>>) -> Option<u32> {
    match run {
        Some(r) if decimal(r) is Some => decimal(r),
        _ => words_value(words(s)),
    }
}

/// The number that the text `s` holds.
pub open spec fn number_in(s: Seq<char>) -> Option<u32> {
    number_given_run(s, first_digit_run(s))
}

/// The number in `s` once the search for digits has been made: `run` is the
/// first run of digits found, if any.
pub fn number_with_run(s: &str, run: Option<&str>) -> (res: Option<u32>)
    ensures
        res == number_given_run(
            s@,
            match run {
                Some(r) => Some(r@),
                None => None,
            },
        ),
{
    if let Some(r) = run {
        let digits = to_chars(r);
        if let Some(n) = parse_decimal(digits.as_slice()) {
            return Some(n);
        }
    }
    let chars = to_chars(s);
    let ranges = split_words(chars.as_slice());
    if ranges.len() == 0 {
        None
    } else if ranges.len() == 1 {
        let (a, b) = ranges[0];
        word_to_number(s.substring_char(a, b))
    } else {
        let (a, b) = ranges[1];
        word_to_number(s.substring_char(a, b))
    }
}

/// Extract a number from a string containing digits, words, or letters
pub fn extract_number(s: &str) -> (res: Option<u32>)
    ensures
        res == number_in(s@),
{
    match find_digit_run(s) {
        Some(run) => number_with_run(s, Some(run.as_str())),
        None => number_with_run(s, None),
    }
}

/// What a file name parses to.
#[derive(Debug, Clone)]
pub struct ParsedFilename {
    /// Name with disc/side markers removed (for grouping)
    pub base_name: String,
    /// Disc number, with side as tenths
    pub disc_number: DiscNumber,
}

/// The index of the last `c` in `s`, or -1 where there is none.
pub open spec fn last_index_of(s: Seq<char>, c: char) -> int
    decreases s.len(),
{
    if s.len() == 0 {
        -1
    } else if s.last() == c {
        s.len() - 1
    } else {
        last_index_of(s.drop_last(), c)
    }
}

/// The last `c` of `s` is found within `s`, and nothing behind it is `c`.
pub proof fn lemma_last_index_of(s: Seq<char>, c: char)
    ensures
        -1 <= last_index_of(s, c) < s.len(),
        last_index_of(s, c) >= 0 ==> s[last_index_of(s, c)] == c,
        forall|i: int| last_index_of(s, c) < i < s.len() ==> #[trigger] s[i] != c,
    decreases s.len(),
{
    if s.len() > 0 && s.last() != c {
        lemma_last_index_of(s.drop_last(), c);
        assert forall|i: int| last_index_of(s, c) < i < s.len() implies #[trigger] s[i] != c by {
            if i < s.len() - 1 {
                assert(s.drop_last()[i] == s[i]);
            }
        }
    }
}

/// A file name without its extension: what stands before the last dot,
/// unless that dot begins the name.
pub open spec fn stem_of(name: Seq<char>) -> Seq<char> {
    let dot = last_index_of(name, '.');
    if dot > 0 {
        name.take(dot)
    } else {
        name
    }
}

/// `s` without the span `s[i..=j]` and without the whitespace that led up
/// to it.
pub open spec fn cut(s: Seq<char>, i: int, j: int) -> Seq<char> {
    trim_end(s.take(i)) + s.skip(j + 1)
}

/// The base name and disc number of a stem, given the locator groups found
/// in it. `found` is the last locator group, `disc` the last group before
/// it that counts discs. With no group the stem is the base name and the
/// number is 0. Else the group is cut out, the rest is trimmed, and the
/// group's value counts discs; but where it counts sides and a disc group
/// stands before it, both are cut out, the disc group gives the discs and
/// the side a tenth each.
pub open spec fn assembled(
    stem: Seq<char>,
    found: Option<(int, int, Locator)>,
    disc: Option<(int, int, Locator)>,
) -> (Seq<char>, DiscNumber) {
    match found {
        None => (stem, DiscNumber { tenths: 0 }),
        Some((i, j, loc)) => match disc {
            Some((di, dj, d)) if loc.side => (
                trim(trim_end(cut(stem.take(i), di, dj)) + stem.skip(j + 1)),
                DiscNumber { tenths: (10 * d.value + loc.value) as u64 },
            ),
            _ => (trim(cut(stem, i, j)), DiscNumber { tenths: (10 * loc.value) as u64 }),
        },
    }
}

/// What a file name parses to: its base name and its disc number.
pub open spec fn parse_spec(name: Seq<char>) -> (Seq<char>, DiscNumber) {
    let stem = stem_of(name);
    let found = last_locator(stem, stem.len() as int, false);
    let disc = match found {
        Some((i, j, loc)) if loc.side => last_locator(stem, i, true),
        _ => None,
    };
    assembled(stem, found, disc)
}

/// A file name without a locator group parses to its stem and the number
/// 0: the file stands alone. This holds of every name without a closing
/// delimiter.
pub proof fn lemma_parse_without_locator(name: Seq<char>)
    requires
        last_locator(stem_of(name), stem_of(name).len() as int, false) is None,
    ensures
        parse_spec(name) == (stem_of(name), DiscNumber { tenths: 0 }),
{
}

/// A file name that holds neither `)` nor `]` parses to its stem and the
/// number 0.
pub proof fn lemma_parse_plain_name(name: Seq<char>)
    requires
        forall|i: int| 0 <= i < name.len() ==> #[trigger] name[i] != ')' && name[i] != ']',
    ensures
        parse_spec(name) == (stem_of(name), DiscNumber { tenths: 0 }),
{
    let stem = stem_of(name);
    lemma_last_index_of(name, '.');
    assert forall|i: int| 0 <= i < stem.len() implies #[trigger] stem[i] != ')' && stem[i]
        != ']' by {
        assert(stem[i] == name[i]);
    }
    lemma_no_group_no_locator(stem, stem.len() as int, false);
}

/// The disc number of a parsed name is made of the values of its locator
/// groups: ten times the disc, plus the side where a side follows a disc;
/// ten times the one value otherwise.
pub proof fn lemma_parse_position(name: Seq<char>)
    ensures
        ({
            let stem = stem_of(name);
            match last_locator(stem, stem.len() as int, false) {
                None => parse_spec(name).1.tenths == 0,
                Some((i, j, loc)) => if loc.side {
                    match last_locator(stem, i, true) {
                        Some((di, dj, disc)) => parse_spec(name).1.tenths == 10 * disc.value
                            + loc.value,
                        None => parse_spec(name).1.tenths == 10 * loc.value,
                    }
                } else {
                    parse_spec(name).1.tenths == 10 * loc.value
                },
            }
        }),
{
}

fn stem_index(chars: &[char]) -> (res: usize)
    ensures
        res <= chars.len(),
        chars@.take(res as int) == stem_of(chars@),
{
    let n: usize = chars.len();
    let mut k: usize = n;
    assert(chars@.take(n as int) =~= chars@);
    while k > 0 && chars[k - 1] != '.'
        invariant
            k <= n,
            n == chars.len(),
            last_index_of(chars@.take(k as int), '.') == last_index_of(chars@, '.'),
        decreases k,
    {
        assert(chars@.take(k as int).drop_last() =~= chars@.take(k - 1));
        k -= 1;
    }
    if k > 1 {
        k - 1
    } else {
        n
    }
}

fn trimmed(s: &str) -> (res: String)
    ensures
        res@ == trim(s@),
{
    let chars = to_chars(s);
    let n: usize = chars.len();
    let hi = trim_end_index(chars.as_slice(), n);
    assert(chars@.take(n as int) =~= chars@);
    let lo = trim_start_index(chars.as_slice(), 0, hi);
    assert(chars@.subrange(0, hi as int) =~= chars@.take(hi as int));
    String::from_str(s.substring_char(lo, hi))
}

fn trimmed_end(s: &str) -> (res: String)
    ensures
        res@ == trim_end(s@),
{
    let chars = to_chars(s);
    let n: usize = chars.len();
    let hi = trim_end_index(chars.as_slice(), n);
    assert(chars@.take(n as int) =~= chars@);
    assert(chars@.subrange(0, hi as int) =~= chars@.take(hi as int));
    String::from_str(s.substring_char(0, hi))
}

/// Builds the result for a stem from the locator groups found in it: see
/// [`assembled`]. The spans must lie in the stem, the disc group before
/// the other.
pub fn assemble(
    stem: &str,
    found: Option<(usize, usize, Locator)>,
    disc: Option<(usize, usize, Locator)>,
) -> (res: ParsedFilename)
    requires
        match found {
            Some((i, j, _)) => i <= j < stem@.len() && match disc {
                Some((di, dj, _)) => di <= dj < i,
                None => true,
            },
            None => true,
        },
    ensures
        (res.base_name@, res.disc_number) == assembled(
            stem@,
            match found {
                Some((i, j, l)) => Some((i as int, j as int, l)),
                None => None,
            },
            match disc {
                Some((di, dj, d)) => Some((di as int, dj as int, d)),
                None => None,
            },
        ),
{
    let n: usize = stem.unicode_len();
    match found {
        None => ParsedFilename {
            base_name: String::from_str(stem),
            disc_number: DiscNumber { tenths: 0 },
        },
        Some((i, j, loc)) => {
            let before = stem.substring_char(0, i);
            let after = stem.substring_char(j + 1, n);
            assert(stem@.subrange(0, i as int) =~= stem@.take(i as int));
            assert(stem@.subrange(j + 1, n as int) =~= stem@.skip(j + 1));
            match disc {
                Some((di, dj, d)) if loc.side => {
                    let mut left = trimmed_end(before.substring_char(0, di));
                    left.append(before.substring_char(dj + 1, i));
                    assert(before@.subrange(0, di as int) =~= before@.take(di as int));
                    assert(before@.subrange(dj + 1, i as int) =~= before@.skip(dj + 1));
                    let mut joined = trimmed_end(left.as_str());
                    joined.append(after);
                    ParsedFilename {
                        base_name: trimmed(joined.as_str()),
                        disc_number: DiscNumber::with_side(d.value, loc.value),
                    }
                },
                _ => {
                    let mut joined = trimmed_end(before);
                    joined.append(after);
                    ParsedFilename {
                        base_name: trimmed(joined.as_str()),
                        disc_number: DiscNumber::whole(loc.value),
                    }
                },
            }
        },
    }
}

/// Parses a file name into the base name of its title and its disc number.
pub fn parse_filename(filename: &str) -> (res: ParsedFilename)
    ensures
        (res.base_name@, res.disc_number) == parse_spec(filename@),
{
    let name_chars = to_chars(filename);
    let end = stem_index(name_chars.as_slice());
    let stem = filename.substring_char(0, end);
    assert(filename@.subrange(0, end as int) =~= filename@.take(end as int));
    let chars = to_chars(stem);
    let n: usize = chars.len();
    let found = find_last_locator(stem, chars.as_slice(), n, false);
    let disc = match found {
        Some((i, _, loc)) if loc.side => find_last_locator(stem, chars.as_slice(), i, true),
        _ => None,
    };
    assemble(stem, found, disc)
}

} // verus!
