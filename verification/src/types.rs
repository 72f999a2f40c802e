//! Media formats, disc numbers and the record kept for each media file.

use crate::text::{ascii_lower, chars_eq, lowercase, lowercase_of};
use vstd::prelude::*;
use vstd::utf8::is_ascii_chars;

verus! {

/// Type of media file detected from extension
#[derive(Debug, Clone, Copy, PartialEq, Eq, Structural)]
pub enum MediaType {
    /// Floppy disk formats (adf, d64, etc.)
    Floppy,
    /// Disc index formats that reference images (cue, toc, ccd, gdi)
    DiscIndex,
    /// Disc image formats (iso, chd, etc.)
    DiscImage,
}

/// The extensions of floppy disk formats, in lower case.
pub open spec fn floppy_extensions() -> Set<Seq<char>> {
    set![
        "ipf"@, "adf"@, "adz"@, "dms"@, "dim"@, "d64"@, "d71"@, "d81"@, "d88"@, "dsk"@, "ima"@,
        "fdi"@, "qd"@, "fds"@, "tap"@, "tzx"@, "cas"@,
    ]
}

/// The extensions of disc index formats, in lower case.
pub open spec fn disc_index_extensions() -> Set<Seq<char>> {
    set!["cue"@, "toc"@, "ccd"@, "gdi"@]
}

/// The extensions of disc image formats, in lower case.
pub open spec fn disc_image_extensions() -> Set<Seq<char>> {
    set!["mds"@, "cdi"@, "img"@, "iso"@, "chd"@, "rvz"@]
}

/// The format that a lower-case extension stands for, if any.
pub open spec fn tier_of(e: Seq<char>) -> Option<MediaType> {
    if floppy_extensions().contains(e) {
        Some(MediaType::Floppy)
    } else if disc_index_extensions().contains(e) {
        Some(MediaType::DiscIndex)
    } else if disc_image_extensions().contains(e) {
        Some(MediaType::DiscImage)
    } else {
        None
    }
}

/// The format of a file with extension `ext`, whatever the case of its
/// letters.
pub open spec fn classify(ext: Seq<char>) -> Option<MediaType> {
    tier_of(lowercase(ext))
}

fn is_floppy_extension(e: &[char]) -> (res: bool)
    ensures
        res == floppy_extensions().contains(e@),
{
    chars_eq(e, "ipf") || chars_eq(e, "adf") || chars_eq(e, "adz") || chars_eq(e, "dms")
        || chars_eq(e, "dim") || chars_eq(e, "d64") || chars_eq(e, "d71") || chars_eq(e, "d81")
        || chars_eq(e, "d88") || chars_eq(e, "dsk") || chars_eq(e, "ima") || chars_eq(e, "fdi")
        || chars_eq(e, "qd") || chars_eq(e, "fds") || chars_eq(e, "tap") || chars_eq(e, "tzx")
        || chars_eq(e, "cas")
}

fn is_disc_index_extension(e: &[char]) -> (res: bool)
    ensures
        res == disc_index_extensions().contains(e@),
{
    chars_eq(e, "cue") || chars_eq(e, "toc") || chars_eq(e, "ccd") || chars_eq(e, "gdi")
}

fn is_disc_image_extension(e: &[char]) -> (res: bool)
    ensures
        res == disc_image_extensions().contains(e@),
{
    chars_eq(e, "mds") || chars_eq(e, "cdi") || chars_eq(e, "img") || chars_eq(e, "iso")
        || chars_eq(e, "chd") || chars_eq(e, "rvz")
}

impl MediaType {
    /// Detect media type from file extension (case-insensitive)
    pub fn from_extension(ext: &str) -> (res: Option<MediaType>)
        ensures
            res == classify(ext@),
    {
        let lower = lowercase_of(ext);
        if is_floppy_extension(lower.as_slice()) {
            Some(MediaType::Floppy)
        } else if is_disc_index_extension(lower.as_slice()) {
            Some(MediaType::DiscIndex)
        } else if is_disc_image_extension(lower.as_slice()) {
            Some(MediaType::DiscImage)
        } else {
            None
        }
    }

    /// Check if this is a floppy format
    pub fn is_floppy(&self) -> (res: bool)
        ensures
            res == (*self == MediaType::Floppy),
    {
        matches!(self, MediaType::Floppy)
    }
}

/// Where a file stands within its title, counted in tenths so that a side
/// can follow its disc: disc 2 is 20, disc 2 side 1 is 21.
#[derive(Debug, Clone, Copy, PartialEq, Eq, Structural)]
pub struct DiscNumber {
    pub tenths: u64,
}

impl DiscNumber {
    /// The number of a whole disc.
    pub fn whole(disc: u32) -> (res: DiscNumber)
        ensures
            res.tenths == 10 * disc,
    {
        DiscNumber { tenths: 10 * (disc as u64) }
    }

    /// The number of one side of a disc: the side counts a tenth each.
    pub fn with_side(disc: u32, side: u32) -> (res: DiscNumber)
        ensures
            res.tenths == 10 * disc + side,
    {
        DiscNumber { tenths: 10 * (disc as u64) + side as u64 }
    }
}

/// A media file with parsed metadata
#[derive(Debug, Clone)]
pub struct MediaFile {
    /// Full path to the file
    pub path: String,
    /// Just the filename (no directory)
    pub filename: String,
    /// Name with disc/side markers removed (for grouping)
    pub base_name: String,
    /// Disc number, with side as tenths (e.g., 21 for Disc 2 Side 1)
    pub disc_number: DiscNumber,
    /// The detected media type
    pub media_type: MediaType,
}

impl MediaFile {
    /// Check if this file is of a floppy format
    pub fn is_floppy(&self) -> (res: bool)
        ensures
            res == (self.media_type == MediaType::Floppy),
    {
        self.media_type.is_floppy()
    }
}

/// How strongly a format claims a directory: where several formats are
/// present, only the files of the one with the least rank are grouped.
pub open spec fn tier_rank(t: MediaType) -> int {
    match t {
        MediaType::Floppy => 0,
        MediaType::DiscIndex => 1,
        MediaType::DiscImage => 2,
    }
}

/// No extension belongs to two formats.
pub proof fn lemma_extension_sets_disjoint()
    ensures
        floppy_extensions().disjoint(disc_index_extensions()),
        floppy_extensions().disjoint(disc_image_extensions()),
        disc_index_extensions().disjoint(disc_image_extensions()),
{
    reveal_extension_literals();
}

/// Every listed extension is ASCII and already in lower case.
pub proof fn lemma_extensions_are_lowercase(e: Seq<char>)
    requires
        tier_of(e) is Some,
    ensures
        is_ascii_chars(e),
        ascii_lower(e) == e,
        classify(e) == tier_of(e),
{
    reveal_extension_literals();
    assert(ascii_lower(e) =~= e);
}

/// A listed extension has its format in whatever case it is written:
/// every spelling that differs from the listed one only in the case of its
/// letters is classified as the listed one.
pub proof fn lemma_listed_extension_in_any_case(ext: Seq<char>, listed: Seq<char>)
    requires
        tier_of(listed) is Some,
        is_ascii_chars(ext),
        ascii_lower(ext) == listed,
    ensures
        classify(ext) == tier_of(listed),
        classify(listed) == tier_of(listed),
{
    lemma_extensions_are_lowercase(listed);
}

/// Classification ignores the case of ASCII letters: two spellings that
/// differ only in case are classified alike, as their common lower-case
/// form is.
pub proof fn lemma_classify_ignores_case(ext: Seq<char>, other: Seq<char>)
    requires
        is_ascii_chars(ext),
        is_ascii_chars(other),
        ascii_lower(ext) == ascii_lower(other),
    ensures
        classify(ext) == classify(other),
        classify(ext) == tier_of(ascii_lower(ext)),
{
}

/// Classification is total and exact: an extension has a format if and
/// only if its lower-case form is listed, and then the format is that of
/// the one set that lists it.
pub proof fn lemma_classify_total(ext: Seq<char>)
    ensures
        classify(ext) == Some(MediaType::Floppy) <==> floppy_extensions().contains(lowercase(ext)),
        classify(ext) == Some(MediaType::DiscIndex) <==> disc_index_extensions().contains(
            lowercase(ext),
        ),
        classify(ext) == Some(MediaType::DiscImage) <==> disc_image_extensions().contains(
            lowercase(ext),
        ),
        classify(ext) is None <==> !floppy_extensions().contains(lowercase(ext))
            && !disc_index_extensions().contains(lowercase(ext))
            && !disc_image_extensions().contains(lowercase(ext)),
{
    lemma_extension_sets_disjoint();
}

proof fn reveal_extension_literals()
    ensures
        "ipf"@ == seq!['i', 'p', 'f'],
        "adf"@ == seq!['a', 'd', 'f'],
        "adz"@ == seq!['a', 'd', 'z'],
        "dms"@ == seq!['d', 'm', 's'],
        "dim"@ == seq!['d', 'i', 'm'],
        "d64"@ == seq!['d', '6', '4'],
        "d71"@ == seq!['d', '7', '1'],
        "d81"@ == seq!['d', '8', '1'],
        "d88"@ == seq!['d', '8', '8'],
        "dsk"@ == seq!['d', 's', 'k'],
        "ima"@ == seq!['i', 'm', 'a'],
        "fdi"@ == seq!['f', 'd', 'i'],
        "qd"@ == seq!['q', 'd'],
        "fds"@ == seq!['f', 'd', 's'],
        "tap"@ == seq!['t', 'a', 'p'],
        "tzx"@ == seq!['t', 'z', 'x'],
        "cas"@ == seq!['c', 'a', 's'],
        "cue"@ == seq!['c', 'u', 'e'],
        "toc"@ == seq!['t', 'o', 'c'],
        "ccd"@ == seq!['c', 'c', 'd'],
        "gdi"@ == seq!['g', 'd', 'i'],
        "mds"@ == seq!['m', 'd', 's'],
        "cdi"@ == seq!['c', 'd', 'i'],
        "img"@ == seq!['i', 'm', 'g'],
        "iso"@ == seq!['i', 's', 'o'],
        "chd"@ == seq!['c', 'h', 'd'],
        "rvz"@ == seq!['r', 'v', 'z'],
{
    reveal_strlit("ipf");
    reveal_strlit("adf");
    reveal_strlit("adz");
    reveal_strlit("dms");
    reveal_strlit("dim");
    reveal_strlit("d64");
    reveal_strlit("d71");
    reveal_strlit("d81");
    reveal_strlit("d88");
    reveal_strlit("dsk");
    reveal_strlit("ima");
    reveal_strlit("fdi");
    reveal_strlit("qd");
    reveal_strlit("fds");
    reveal_strlit("tap");
    reveal_strlit("tzx");
    reveal_strlit("cas");
    reveal_strlit("cue");
    reveal_strlit("toc");
    reveal_strlit("ccd");
    reveal_strlit("gdi");
    reveal_strlit("mds");
    reveal_strlit("cdi");
    reveal_strlit("img");
    reveal_strlit("iso");
    reveal_strlit("chd");
    reveal_strlit("rvz");
    assert("ipf"@ =~= seq!['i', 'p', 'f']);
    assert("adf"@ =~= seq!['a', 'd', 'f']);
    assert("adz"@ =~= seq!['a', 'd', 'z']);
    assert("dms"@ =~= seq!['d', 'm', 's']);
    assert("dim"@ =~= seq!['d', 'i', 'm']);
    assert("d64"@ =~= seq!['d', '6', '4']);
    assert("d71"@ =~= seq!['d', '7', '1']);
    assert("d81"@ =~= seq!['d', '8', '1']);
    assert("d88"@ =~= seq!['d', '8', '8']);
    assert("dsk"@ =~= seq!['d', 's', 'k']);
    assert("ima"@ =~= seq!['i', 'm', 'a']);
    assert("fdi"@ =~= seq!['f', 'd', 'i']);
    assert("qd"@ =~= seq!['q', 'd']);
    assert("fds"@ =~= seq!['f', 'd', 's']);
    assert("tap"@ =~= seq!['t', 'a', 'p']);
    assert("tzx"@ =~= seq!['t', 'z', 'x']);
    assert("cas"@ =~= seq!['c', 'a', 's']);
    assert("cue"@ =~= seq!['c', 'u', 'e']);
    assert("toc"@ =~= seq!['t', 'o', 'c']);
    assert("ccd"@ =~= seq!['c', 'c', 'd']);
    assert("gdi"@ =~= seq!['g', 'd', 'i']);
    assert("mds"@ =~= seq!['m', 'd', 's']);
    assert("cdi"@ =~= seq!['c', 'd', 'i']);
    assert("img"@ =~= seq!['i', 'm', 'g']);
    assert("iso"@ =~= seq!['i', 's', 'o']);
    assert("chd"@ =~= seq!['c', 'h', 'd']);
    assert("rvz"@ =~= seq!['r', 'v', 'z']);
}

} // verus!
