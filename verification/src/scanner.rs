//! Choosing, among the entries of one directory, the media files that are
//! to be grouped.

use crate::m3u::{grouped, has_floppy, lemma_floppy_mode_is_one_set, lemma_grouping_keeps_the_files};
use crate::parser::{last_index_of, parse_filename, parse_spec};
use crate::text::to_chars;
use crate::types::{classify, tier_rank, MediaFile, MediaType};
use vstd::prelude::*;

verus! {

/// One regular file of a directory, as the caller found it.
#[derive(Debug, Clone)]
pub struct DirEntry {
    /// Full path to the file
    pub path: String,
    /// Just the filename (no directory)
    pub filename: String,
}

/// The extension of a file name: what follows the last dot, unless that dot
/// begins the name.
pub open spec fn extension_of(name: Seq<char>) -> Option<Seq<char>> {
    let dot = last_index_of(name, '.');
    if dot > 0 {
        Some(name.skip(dot + 1))
    } else {
        None
    }
}

/// The format of a directory entry, by its extension.
pub open spec fn entry_tier(e: DirEntry) -> Option<MediaType> {
    match extension_of(e.filename@) {
        Some(ext) => classify(ext),
        None => None,
    }
}

/// Whether some entry is of format `t`.
pub open spec fn has_tier(entries: Seq<DirEntry>, t: MediaType) -> bool {
    exists|i: int| 0 <= i < entries.len() && entry_tier(#[trigger] entries[i]) == Some(t)
}

/// The one format whose files are grouped: floppy where a floppy file is
/// present, else disc index, else disc image.
pub open spec fn chosen_tier(entries: Seq<DirEntry>) -> Option<MediaType> {
    if has_tier(entries, MediaType::Floppy) {
        Some(MediaType::Floppy)
    } else if has_tier(entries, MediaType::DiscIndex) {
        Some(MediaType::DiscIndex)
    } else if has_tier(entries, MediaType::DiscImage) {
        Some(MediaType::DiscImage)
    } else {
        None
    }
}

/// The entries of format `t`, in the order of `entries`.
pub open spec fn of_tier(entries: Seq<DirEntry>, t: MediaType) -> Seq<DirEntry> {
    entries.filter(|e: DirEntry| entry_tier(e) == Some(t))
}

/// The entries that are grouped: those of the chosen format.
pub open spec fn candidates(entries: Seq<DirEntry>) -> Seq<DirEntry> {
    match chosen_tier(entries) {
        Some(t) => of_tier(entries, t),
        None => Seq::empty(),
    }
}

/// Whether `f` is the record of the entry `e`: same path and file name, the
/// format of the extension, base name and disc number as parsed from the
/// file name.
pub open spec fn is_record_of(f: MediaFile, e: DirEntry) -> bool {
    &&& f.path == e.path
    &&& f.filename == e.filename
    &&& Some(f.media_type) == entry_tier(e)
    &&& (f.base_name@, f.disc_number) == parse_spec(e.filename@)
}

/// Whether `files` holds the records of `entries`, one for one and in
/// order.
pub open spec fn are_records_of(files: Seq<MediaFile>, entries: Seq<DirEntry>) -> bool {
    &&& files.len() == entries.len()
    &&& forall|k: int| 0 <= k < files.len() ==> is_record_of(#[trigger] files[k], entries[k])
}

/// Where the extension of the name `chars` starts, if it has one.
pub fn extension_range(chars: &[char]) -> (res: Option<usize>)
    ensures
        match res {
            Some(start) => start <= chars.len() && extension_of(chars@) == Some(
                chars@.skip(start as int),
            ),
            None => extension_of(chars@) is None,
        },
{
    let n: usize = chars.len();
    let mut k: usize = n;
    assert(chars@.take(n as int) =~= chars@);
    while k > 0 && chars[k - 1] != '.'
        invariant
            k <= n,
            n == chars.len(),
            last_index_of(chars@.take(k as int), '.') == last_index_of(chars@, '.'),
        decreases k,
    {
        assert(chars@.take(k as int).drop_last() =~= chars@.take(k - 1));
        k -= 1;
    }
    if k > 1 {
        Some(k)
    } else {
        None
    }
}

/// The format of the file named `filename`, by its extension.
pub fn tier_of_name(filename: &str) -> (res: Option<MediaType>)
    ensures
        res == match extension_of(filename@) {
            Some(ext) => classify(ext),
            None => None,
        },
{
    let chars = to_chars(filename);
    match extension_range(chars.as_slice()) {
        Some(start) => {
            let n: usize = chars.len();
            assert(filename@.subrange(start as int, n as int) =~= filename@.skip(start as int));
            MediaType::from_extension(filename.substring_char(start, n))
        },
        None => None,
    }
}

/// Scan the entries of a single directory for media files. Entries that are
/// no media are left out; of the others only those of the chosen format
/// are kept, each with its parsed record, in the order in which they came.
pub fn scan_directory(entries: Vec<DirEntry>) -> (files: Vec<MediaFile>)
    ensures
        are_records_of(files@, candidates(entries@)),
{
    let mut floppy_files: Vec<MediaFile> = Vec::new();
    let mut disc_index_files: Vec<MediaFile> = Vec::new();
    let mut disc_image_files: Vec<MediaFile> = Vec::new();
    let ghost all = entries@;
    proof {
        reveal(Seq::filter);
        assert(all.take(0) =~= Seq::<DirEntry>::empty());
    }
    for entry in it: entries
        invariant
            it.seq() == all,
            are_records_of(floppy_files@, of_tier(all.take(it.index() as int), MediaType::Floppy)),
            are_records_of(
                disc_index_files@,
                of_tier(all.take(it.index() as int), MediaType::DiscIndex),
            ),
            are_records_of(
                disc_image_files@,
                of_tier(all.take(it.index() as int), MediaType::DiscImage),
            ),
    {
        proof {
            let seen = all.take(it.index() as int);
            assert(all.take(it.index() + 1) =~= seen.push(entry));
            seen.lemma_filter_push(entry, |e: DirEntry| entry_tier(e) == Some(MediaType::Floppy));
            seen.lemma_filter_push(
                entry,
                |e: DirEntry| entry_tier(e) == Some(MediaType::DiscIndex),
            );
            seen.lemma_filter_push(
                entry,
                |e: DirEntry| entry_tier(e) == Some(MediaType::DiscImage),
            );
        }
        match tier_of_name(entry.filename.as_str()) {
            None => {},
            Some(media_type) => {
                let parsed = parse_filename(entry.filename.as_str());
                let media_file = MediaFile {
                    path: entry.path,
                    filename: entry.filename,
                    base_name: parsed.base_name,
                    disc_number: parsed.disc_number,
                    media_type,
                };
                match media_type {
                    MediaType::Floppy => floppy_files.push(media_file),
                    MediaType::DiscIndex => disc_index_files.push(media_file),
                    MediaType::DiscImage => disc_image_files.push(media_file),
                }
            },
        }
    }
    proof {
        assert(all.take(all.len() as int) =~= all);
        lemma_of_tier_empty(all, MediaType::Floppy);
        lemma_of_tier_empty(all, MediaType::DiscIndex);
        lemma_of_tier_empty(all, MediaType::DiscImage);
    }
    // Priority: floppy > disc index > disc image
    if !floppy_files.is_empty() {
        floppy_files
    } else if !disc_index_files.is_empty() {
        disc_index_files
    } else {
        disc_image_files
    }
}

/// A format is present exactly where the list of its entries is not empty.
pub proof fn lemma_of_tier_empty(entries: Seq<DirEntry>, t: MediaType)
    ensures
        has_tier(entries, t) <==> of_tier(entries, t).len() > 0,
{
    let pred = |e: DirEntry| entry_tier(e) == Some(t);
    if has_tier(entries, t) {
        let i = choose|i: int| 0 <= i < entries.len() && entry_tier(#[trigger] entries[i]) == Some(t);
        entries.lemma_filter_contains(pred, i);
    }
    if of_tier(entries, t).len() > 0 {
        let f = of_tier(entries, t)[0];
        entries.lemma_filter_pred(pred, 0);
        assert(of_tier(entries, t).contains(f));
        entries.lemma_filter_contains_rev(pred, f);
        let i = choose|i: int| 0 <= i < entries.len() && entries[i] == f;
        assert(entry_tier(entries[i]) == Some(t));
    }
}

/// The order of formats decides which files are grouped. The candidates are
/// all of one format, the chosen one; they are all the entries of that
/// format; and no entry is of a format that ranks before it. So in a
/// directory with a floppy file only the floppy files are candidates, and
/// with none but a disc index file only the disc index files.
pub proof fn lemma_tier_priority(entries: Seq<DirEntry>)
    ensures
        forall|k: int|
            0 <= k < candidates(entries).len() ==> entry_tier(#[trigger] candidates(entries)[k])
                == chosen_tier(entries),
        forall|i: int|
            0 <= i < entries.len() && entry_tier(#[trigger] entries[i]) is Some ==> {
                &&& chosen_tier(entries) is Some
                &&& tier_rank(chosen_tier(entries).unwrap()) <= tier_rank(
                    entry_tier(entries[i]).unwrap(),
                )
                &&& entry_tier(entries[i]) == chosen_tier(entries) ==> candidates(
                    entries,
                ).contains(entries[i])
            },
        has_tier(entries, MediaType::Floppy) ==> candidates(entries) == of_tier(
            entries,
            MediaType::Floppy,
        ),
        chosen_tier(entries) is None ==> candidates(entries).len() == 0,
{
    match chosen_tier(entries) {
        Some(t) => {
            let pred = |e: DirEntry| entry_tier(e) == Some(t);
            assert forall|k: int| 0 <= k < candidates(entries).len() implies entry_tier(
                #[trigger] candidates(entries)[k],
            ) == chosen_tier(entries) by {
                entries.lemma_filter_pred(pred, k);
            }
            assert forall|i: int|
                0 <= i < entries.len() && entry_tier(#[trigger] entries[i]) == chosen_tier(
                    entries,
                ) implies candidates(entries).contains(entries[i]) by {
                entries.lemma_filter_contains(pred, i);
            }
        },
        None => {},
    }
}

/// Grouping works on the files of the chosen format only. `files` are the
/// records that a scan of `entries` yields. Every member of every set is
/// then of the chosen format. Where a floppy file is present and disc mode
/// is not forced, the one set holds the floppy files and nothing else.
/// Where disc mode is forced and a disc file is present, no member is a
/// floppy file. The last holds only of directories in which forced disc
/// mode does not meet floppy files beside disc files: there the floppy
/// files are chosen, as in every directory that has one.
pub proof fn lemma_grouping_follows_tier_priority(
    entries: Seq<DirEntry>,
    files: Seq<MediaFile>,
    force_disc_mode: bool,
)
    requires
        are_records_of(files, candidates(entries)),
        !(force_disc_mode && has_tier(entries, MediaType::Floppy) && (has_tier(
            entries,
            MediaType::DiscIndex,
        ) || has_tier(entries, MediaType::DiscImage))),
    ensures
        ({
            let sets = grouped(files, force_disc_mode);
            &&& forall|k: int, i: int|
                0 <= k < sets.len() && 0 <= i < sets[k].files.len() ==> Some(
                    (#[trigger] sets[k].files[i]).media_type,
                ) == chosen_tier(entries)
            &&& has_tier(entries, MediaType::Floppy) && !force_disc_mode ==> {
                &&& are_records_of(files, of_tier(entries, MediaType::Floppy))
                &&& sets.len() == 1
                &&& sets[0].files.to_multiset() == files.to_multiset()
            }
            &&& force_disc_mode && (has_tier(entries, MediaType::DiscIndex) || has_tier(
                entries,
                MediaType::DiscImage,
            )) ==> forall|k: int, i: int|
                0 <= k < sets.len() && 0 <= i < sets[k].files.len() ==> (
                #[trigger] sets[k].files[i]).media_type != MediaType::Floppy
        }),
{
    let sets = grouped(files, force_disc_mode);
    lemma_tier_priority(entries);
    lemma_grouping_keeps_the_files(files, force_disc_mode);
    assert forall|k: int, i: int|
        0 <= k < sets.len() && 0 <= i < sets[k].files.len() implies Some(
        (#[trigger] sets[k].files[i]).media_type,
    ) == chosen_tier(entries) by {
        let f = sets[k].files[i];
        assert(files.contains(f));
        let j = choose|j: int| 0 <= j < files.len() && files[j] == f;
        assert(is_record_of(files[j], candidates(entries)[j]));
    }
    if has_tier(entries, MediaType::Floppy) && !force_disc_mode {
        lemma_of_tier_empty(entries, MediaType::Floppy);
        assert(is_record_of(files[0], candidates(entries)[0]));
        assert(files[0].media_type == MediaType::Floppy);
        assert(has_floppy(files));
        lemma_floppy_mode_is_one_set(files);
    }
}

} // verus!
