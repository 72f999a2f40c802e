//! Grouping the media files of one directory into the sets that share a
//! playlist.

use crate::order::{
    is_sorted, lemma_sort_is_permutation, lemma_sort_is_sorted, lemma_sort_then_filter, position,
    sort_by_position, sort_files,
};
use crate::scanner::extension_of;
use crate::text::{ascii_lower, chars_eq, lower_chars, to_chars};
use crate::types::{MediaFile, MediaType};
use vstd::prelude::*;
use vstd::string::StringExecFns;

verus! {

/// A group of files that will become one m3u
#[derive(Debug)]
pub struct GameSet {
    pub name: String,
    pub files: Vec<MediaFile>,
}

/// What a [`GameSet`] holds: its name as text and its members in order.
pub struct GameSetView {
    pub name: Seq<char>,
    pub files: Seq<MediaFile>,
}

impl View for GameSet {
    type V = GameSetView;

    open spec fn view(&self) -> GameSetView {
        GameSetView { name: self.name@, files: self.files@ }
    }
}

/// The base names that occur in `s`, each once, in the order in which they
/// first occur.
pub open spec fn base_names(s: Seq<MediaFile>) -> Seq<Seq<char>>
    decreases s.len(),
{
    if s.len() == 0 {
        Seq::empty()
    } else {
        let earlier = base_names(s.drop_last());
        if earlier.contains(s.last().base_name@) {
            earlier
        } else {
            earlier.push(s.last().base_name@)
        }
    }
}

/// The files of `s` whose base name is `name`, in the order of `s`.
pub open spec fn members(s: Seq<MediaFile>, name: Seq<char>) -> Seq<MediaFile> {
    s.filter(|f: MediaFile| f.base_name@ == name)
}

/// One set for each base name of `s`, in the order of first occurrence, each
/// holding the files of that name in the order of `s`.
pub open spec fn partition_by_name(s: Seq<MediaFile>) -> Seq<GameSetView> {
    Seq::new(
        base_names(s).len(),
        |i: int| GameSetView { name: base_names(s)[i], files: members(s, base_names(s)[i]) },
    )
}

/// Whether some file of `s` is of a floppy format.
pub open spec fn has_floppy(s: Seq<MediaFile>) -> bool {
    exists|i: int| 0 <= i < s.len() && (#[trigger] s[i]).media_type == MediaType::Floppy
}

/// The game sets of one directory. The files are sorted by position first.
/// Where a floppy file is among them and disc mode is not forced, they all
/// form one set, named after the first file in sorted order; otherwise
/// they are divided by base name.
pub open spec fn grouped(files: Seq<MediaFile>, force_disc_mode: bool) -> Seq<GameSetView> {
    let sorted = sort_by_position(files);
    if files.len() == 0 {
        Seq::empty()
    } else if has_floppy(files) && !force_disc_mode {
        seq![GameSetView { name: sorted[0].base_name@, files: sorted }]
    } else {
        partition_by_name(sorted)
    }
}

/// The views of a list of game sets.
pub open spec fn views(groups: Seq<GameSet>) -> Seq<GameSetView> {
    groups.map_values(|g: GameSet| g@)
}

/// The list of base names holds the name of every file, and no name twice.
pub proof fn lemma_base_names(s: Seq<MediaFile>)
    ensures
        base_names(s).no_duplicates(),
        forall|i: int| 0 <= i < s.len() ==> base_names(s).contains((#[trigger] s[i]).base_name@),
        forall|k: int|
            0 <= k < base_names(s).len() ==> exists|i: int|
                0 <= i < s.len() && (#[trigger] s[i]).base_name@ == #[trigger] base_names(s)[k],
    decreases s.len(),
{
    if s.len() > 0 {
        let earlier = base_names(s.drop_last());
        let n = s.last().base_name@;
        lemma_base_names(s.drop_last());
        assert forall|i: int| 0 <= i < s.len() implies base_names(s).contains(
            (#[trigger] s[i]).base_name@,
        ) by {
            if i < s.len() - 1 {
                assert(s[i] == s.drop_last()[i]);
                let k = choose|k: int|
                    0 <= k < earlier.len() && earlier[k] == s.drop_last()[i].base_name@;
                assert(base_names(s)[k] == s[i].base_name@);
            } else if earlier.contains(n) {
            } else {
                assert(base_names(s)[earlier.len() as int] == n);
            }
        }
        assert forall|k: int| 0 <= k < base_names(s).len() implies exists|i: int|
            0 <= i < s.len() && (#[trigger] s[i]).base_name@ == #[trigger] base_names(s)[k] by {
            if k < earlier.len() {
                let i = choose|i: int|
                    0 <= i < s.drop_last().len() && (#[trigger] s.drop_last()[i]).base_name@
                        == earlier[k];
                assert(s[i].base_name@ == base_names(s)[k]);
            } else {
                assert(s[s.len() - 1].base_name@ == base_names(s)[k]);
            }
        }
    }
}

/// How the division by name grows when one more file comes: the file joins
/// the set of its name, or founds a new last set; the other sets stay.
pub proof fn lemma_partition_push(s: Seq<MediaFile>, f: MediaFile)
    ensures
        base_names(s).contains(f.base_name@) ==> base_names(s.push(f)) == base_names(s),
        !base_names(s).contains(f.base_name@) ==> base_names(s.push(f)) == base_names(s).push(
            f.base_name@,
        ) && members(s, f.base_name@) == Seq::<MediaFile>::empty(),
        forall|name: Seq<char>|
            #[trigger] members(s.push(f), name) == if name == f.base_name@ {
                members(s, name).push(f)
            } else {
                members(s, name)
            },
{
    assert(s.push(f).drop_last() =~= s);
    assert forall|name: Seq<char>|
        #[trigger] members(s.push(f), name) == if name == f.base_name@ {
            members(s, name).push(f)
        } else {
            members(s, name)
        } by {
        s.lemma_filter_push(f, |x: MediaFile| x.base_name@ == name);
    }
    if !base_names(s).contains(f.base_name@) {
        lemma_base_names(s);
        let pred = |x: MediaFile| x.base_name@ == f.base_name@;
        s.lemma_all_neg_filter_empty(pred);
        assert(s.filter(pred) =~= Seq::<MediaFile>::empty());
    }
}

/// Group media files into game sets for m3u creation: see [`grouped`].
pub fn group_files(files: Vec<MediaFile>, force_disc_mode: bool) -> (groups: Vec<GameSet>)
    ensures
        views(groups@) == grouped(files@, force_disc_mode),
{
    let ghost input = files@;
    if files.is_empty() {
        let groups: Vec<GameSet> = Vec::new();
        assert(views(groups@) =~= Seq::<GameSetView>::empty());
        return groups;
    }
    // Check if any file is floppy format
    let mut any_floppy = false;
    let mut i: usize = 0;
    while i < files.len()
        invariant
            i <= files.len(),
            any_floppy <==> exists|w: int|
                0 <= w < i && (#[trigger] files@[w]).media_type == MediaType::Floppy,
        decreases files.len() - i,
    {
        if files[i].is_floppy() {
            any_floppy = true;
        }
        i += 1;
    }
    let use_floppy_mode = any_floppy && !force_disc_mode;

    // Sort files by disc number for consistent ordering
    let sorted = sort_files(files);
    proof {
        lemma_sort_is_sorted(input);
    }

    if use_floppy_mode {
        // Floppy mode: all files in one group, use first file's base_name
        let name = sorted[0].base_name.clone();
        let mut groups: Vec<GameSet> = Vec::new();
        groups.push(GameSet { name, files: sorted });
        assert(views(groups@) =~= grouped(input, force_disc_mode));
        return groups;
    }
    // Disc mode: group by base_name
    let mut groups: Vec<GameSet> = Vec::new();
    let ghost all = sorted@;
    assert(all.take(0) =~= Seq::<MediaFile>::empty());
    assert(views(groups@) =~= partition_by_name(all.take(0)));
    for file in it: sorted
        invariant
            it.seq() == all,
            views(groups@) == partition_by_name(all.take(it.index() as int)),
    {
        let ghost seen = all.take(it.index() as int);
        let ghost old_groups = groups@;
        proof {
            assert(all.take(it.index() + 1) =~= seen.push(file));
            lemma_partition_push(seen, file);
            lemma_base_names(seen);
            assert(views(groups@).len() == groups@.len());
            assert(partition_by_name(seen).len() == base_names(seen).len());
            assert forall|k: int| 0 <= k < groups.len() implies (#[trigger] groups@[k]).name@
                == base_names(seen)[k] && groups@[k].files@ == members(seen, base_names(seen)[k]) by {
                assert(views(groups@)[k] == groups@[k]@);
                assert(partition_by_name(seen)[k].name == base_names(seen)[k]);
            }
        }
        let mut j: usize = 0;
        while j < groups.len() && !(groups[j].name == file.base_name)
            invariant
                j <= groups.len(),
                groups@ == old_groups,
                forall|k: int| 0 <= k < j ==> (#[trigger] groups@[k]).name@ != file.base_name@,
            decreases groups.len() - j,
        {
            j += 1;
        }
        if j < groups.len() {
            groups[j].files.push(file);
            proof {
                assert(base_names(seen).contains(file.base_name@));
                assert(views(groups@) =~= partition_by_name(seen.push(file)));
            }
        } else {
            let name = file.base_name.clone();
            let mut members_of_new: Vec<MediaFile> = Vec::new();
            members_of_new.push(file);
            groups.push(GameSet { name, files: members_of_new });
            proof {
                assert(!base_names(seen).contains(file.base_name@)) by {
                    if base_names(seen).contains(file.base_name@) {
                        let k = choose|k: int|
                            0 <= k < base_names(seen).len() && base_names(seen)[k]
                                == file.base_name@;
                        assert(old_groups[k].name@ == file.base_name@);
                    }
                }
                assert(views(groups@) =~= partition_by_name(seen.push(file)));
            }
        }
    }
    assert(all.take(all.len() as int) =~= all);
    groups
}

/// Floppy mode yields one set for the whole directory. Where a floppy file
/// is present and disc mode is not forced, whatever the base names are,
/// there is exactly one set; it holds every given file once, in sorted
/// order, and bears the base name of a file of the lowest position.
pub proof fn lemma_floppy_mode_is_one_set(files: Seq<MediaFile>)
    requires
        files.len() > 0,
        has_floppy(files),
    ensures
        grouped(files, false).len() == 1,
        grouped(files, false)[0].files == sort_by_position(files),
        grouped(files, false)[0].files.len() == files.len(),
        grouped(files, false)[0].files.to_multiset() == files.to_multiset(),
        grouped(files, false)[0].name == sort_by_position(files)[0].base_name@,
        forall|i: int|
            0 <= i < files.len() ==> position(sort_by_position(files)[0]) <= position(
                #[trigger] files[i],
            ),
{
    broadcast use vstd::seq_lib::group_to_multiset_ensures;

    let sorted = sort_by_position(files);
    lemma_sort_is_sorted(files);
    lemma_sort_is_permutation(files);
    assert forall|i: int| 0 <= i < files.len() implies position(sorted[0]) <= position(
        #[trigger] files[i],
    ) by {
        assert(files.contains(files[i]));
        assert(sorted.to_multiset().count(files[i]) > 0);
        assert(sorted.contains(files[i]));
        let j = choose|j: int| 0 <= j < sorted.len() && sorted[j] == files[i];
        assert(position(sorted[0]) <= position(sorted[j]));
    }
}

/// Disc mode divides the files by base name. Where disc mode is forced or
/// no floppy file is present: no two sets share a name; every set is the
/// list of all given files of its name, sorted by position among
/// themselves; every member bears the name of its set; no set is empty; and
/// every given file has a set of its name. So files of two different base
/// names make at least two sets.
pub proof fn lemma_disc_mode_divides_by_name(files: Seq<MediaFile>, force_disc_mode: bool)
    requires
        force_disc_mode || !has_floppy(files),
    ensures
        ({
            let sets = grouped(files, force_disc_mode);
            &&& forall|a: int, b: int|
                0 <= a < b < sets.len() ==> (#[trigger] sets[a]).name != (#[trigger] sets[b]).name
            &&& forall|k: int|
                0 <= k < sets.len() ==> (#[trigger] sets[k]).files == sort_by_position(
                    members(files, sets[k].name),
                )
            &&& forall|k: int|
                0 <= k < sets.len() ==> (#[trigger] sets[k]).files.len() > 0 && is_sorted(
                    sets[k].files,
                )
            &&& forall|k: int, i: int|
                0 <= k < sets.len() && 0 <= i < sets[k].files.len() ==> (
                #[trigger] sets[k].files[i]).base_name@ == sets[k].name
            &&& forall|i: int|
                0 <= i < files.len() ==> exists|k: int|
                    0 <= k < sets.len() && (#[trigger] sets[k]).name == (
                    #[trigger] files[i]).base_name@
            &&& forall|i: int, j: int|
                0 <= i < files.len() && 0 <= j < files.len() && (#[trigger] files[i]).base_name@ != (
                #[trigger] files[j]).base_name@ ==> sets.len() >= 2
        }),
{
    broadcast use vstd::seq_lib::group_to_multiset_ensures;

    let sorted = sort_by_position(files);
    let sets = grouped(files, force_disc_mode);
    let names = base_names(sorted);
    lemma_sort_is_sorted(files);
    lemma_sort_is_permutation(files);
    if files.len() == 0 {
        assert(sets.len() == 0);
    } else {
        lemma_base_names(sorted);
        assert(sets =~= partition_by_name(sorted));
        assert forall|k: int| 0 <= k < sets.len() implies (#[trigger] sets[k]).files
            == sort_by_position(members(files, sets[k].name)) && sets[k].files.len() > 0
            && is_sorted(sets[k].files) by {
            let pred = |f: MediaFile| f.base_name@ == names[k];
            lemma_sort_then_filter(files, pred);
            lemma_sort_is_sorted(members(files, names[k]));
            let i = choose|i: int|
                0 <= i < sorted.len() && (#[trigger] sorted[i]).base_name@ == names[k];
            sorted.lemma_filter_contains(pred, i);
        }
        assert forall|k: int, i: int|
            0 <= k < sets.len() && 0 <= i < sets[k].files.len() implies (
        #[trigger] sets[k].files[i]).base_name@ == sets[k].name by {
            let pred = |f: MediaFile| f.base_name@ == names[k];
            sorted.lemma_filter_pred(pred, i);
        }
        assert forall|i: int| 0 <= i < files.len() implies exists|k: int|
            0 <= k < sets.len() && (#[trigger] sets[k]).name == (#[trigger] files[i]).base_name@ by {
            assert(files.contains(files[i]));
            assert(sorted.to_multiset().count(files[i]) > 0);
            assert(sorted.contains(files[i]));
            let j = choose|j: int| 0 <= j < sorted.len() && sorted[j] == files[i];
            assert(names.contains(sorted[j].base_name@));
            let k = choose|k: int| 0 <= k < names.len() && names[k] == sorted[j].base_name@;
            assert(sets[k].name == files[i].base_name@);
        }
        assert forall|i: int, j: int|
            0 <= i < files.len() && 0 <= j < files.len() && (#[trigger] files[i]).base_name@ != (
            #[trigger] files[j]).base_name@ implies sets.len() >= 2 by {
            let a = choose|a: int|
                0 <= a < sets.len() && (#[trigger] sets[a]).name == files[i].base_name@;
            let b = choose|b: int|
                0 <= b < sets.len() && (#[trigger] sets[b]).name == files[j].base_name@;
            assert(a != b);
        }
    }
}

/// The index of the first file of `s` whose base name is `name`, or the
/// length of `s` where no file bears that name.
pub open spec fn first_with_name(s: Seq<MediaFile>, name: Seq<char>) -> int
    decreases s.len(),
{
    if s.len() == 0 {
        0
    } else {
        let k = first_with_name(s.drop_last(), name);
        if k < s.len() - 1 {
            k
        } else if s.last().base_name@ == name {
            s.len() - 1
        } else {
            s.len() as int
        }
    }
}

/// [`first_with_name`] finds a file of the name, and none stands before it.
pub proof fn lemma_first_with_name(s: Seq<MediaFile>, name: Seq<char>)
    ensures
        0 <= first_with_name(s, name) <= s.len(),
        first_with_name(s, name) < s.len() ==> s[first_with_name(s, name)].base_name@ == name,
        forall|m: int| 0 <= m < first_with_name(s, name) ==> (#[trigger] s[m]).base_name@ != name,
    decreases s.len(),
{
    if s.len() > 0 {
        lemma_first_with_name(s.drop_last(), name);
        assert forall|m: int| 0 <= m < first_with_name(s, name) implies (
        #[trigger] s[m]).base_name@ != name by {
            if m < s.len() - 1 {
                assert(s.drop_last()[m] == s[m]);
            }
        }
    }
}

/// The sets come in the order in which their names are first seen: of two
/// sets, the earlier is the one whose name occurs first among the sorted
/// files.
pub proof fn lemma_sets_in_order_of_first_file(s: Seq<MediaFile>)
    ensures
        partition_by_name(s).len() == base_names(s).len(),
        forall|a: int, b: int|
            0 <= a < b < base_names(s).len() ==> first_with_name(s, #[trigger] base_names(s)[a])
                < first_with_name(s, #[trigger] base_names(s)[b]) < s.len(),
        forall|a: int|
            0 <= a < base_names(s).len() ==> first_with_name(s, #[trigger] base_names(s)[a])
                < s.len(),
    decreases s.len(),
{
    if s.len() > 0 {
        let shorter = s.drop_last();
        let earlier = base_names(shorter);
        let names = base_names(s);
        let n = s.last().base_name@;
        lemma_sets_in_order_of_first_file(shorter);
        lemma_base_names(shorter);
        lemma_first_with_name(shorter, n);
        assert forall|a: int| 0 <= a < earlier.len() implies first_with_name(
            s,
            #[trigger] names[a],
        ) == first_with_name(shorter, earlier[a]) by {
            assert(names[a] == earlier[a]);
        }
        if !earlier.contains(n) {
            assert(first_with_name(shorter, n) == shorter.len()) by {
                if first_with_name(shorter, n) < shorter.len() {
                    let i = first_with_name(shorter, n);
                    assert(earlier.contains(shorter[i].base_name@));
                }
            }
            assert(names[earlier.len() as int] == n);
        }
    }
}

/// Grouping drops and invents nothing: every member of a set is one of the
/// given files, and every given file is a member of some set.
pub proof fn lemma_grouping_keeps_the_files(files: Seq<MediaFile>, force_disc_mode: bool)
    ensures
        ({
            let sets = grouped(files, force_disc_mode);
            &&& forall|k: int, i: int|
                0 <= k < sets.len() && 0 <= i < sets[k].files.len() ==> files.contains(
                    #[trigger] sets[k].files[i],
                )
            &&& forall|i: int|
                0 <= i < files.len() ==> exists|k: int|
                    0 <= k < sets.len() && (#[trigger] sets[k]).files.contains(#[trigger] files[i])
        }),
{
    broadcast use vstd::seq_lib::group_to_multiset_ensures;

    let sorted = sort_by_position(files);
    let sets = grouped(files, force_disc_mode);
    let names = base_names(sorted);
    lemma_sort_is_sorted(files);
    lemma_sort_is_permutation(files);
    lemma_base_names(sorted);
    assert forall|k: int, i: int|
        0 <= k < sets.len() && 0 <= i < sets[k].files.len() implies files.contains(
        #[trigger] sets[k].files[i],
    ) by {
        let f = sets[k].files[i];
        assert(sets[k].files.contains(f));
        if !(has_floppy(files) && !force_disc_mode) {
            sorted.lemma_filter_contains_rev(|x: MediaFile| x.base_name@ == names[k], f);
        }
        assert(sorted.contains(f));
        assert(files.to_multiset().count(f) > 0);
    }
    assert forall|i: int| 0 <= i < files.len() implies exists|k: int|
        0 <= k < sets.len() && (#[trigger] sets[k]).files.contains(#[trigger] files[i]) by {
        assert(files.contains(files[i]));
        assert(sorted.to_multiset().count(files[i]) > 0);
        assert(sorted.contains(files[i]));
        let j = choose|j: int| 0 <= j < sorted.len() && sorted[j] == files[i];
        if has_floppy(files) && !force_disc_mode {
            assert(sets[0].files.contains(files[i]));
        } else {
            assert(names.contains(sorted[j].base_name@));
            let k = choose|k: int| 0 <= k < names.len() && names[k] == sorted[j].base_name@;
            sorted.lemma_filter_contains(|x: MediaFile| x.base_name@ == names[k], j);
            assert(sets[k].files.contains(files[i]));
        }
    }
}

/// Whether `b` is NUL or another control character that plain text does
/// not hold: any byte below 32 but tab, line feed and carriage return.
pub open spec fn is_control_byte(b: u8) -> bool {
    b < 32 && b != 9 && b != 10 && b != 13
}

/// How many bytes of `bytes` are control bytes.
pub open spec fn control_count(bytes: Seq<u8>) -> nat {
    bytes.filter(|b: u8| is_control_byte(b)).len()
}

/// Whether a MIME type names a text format: whether it begins with `text/`.
pub open spec fn is_text_mime(mime: Seq<char>) -> bool {
    mime.len() >= 5 && mime.take(5) == "text/"@
}

/// Whether content is taken for text, given the MIME type that its
/// signature was recognised as, if any. Empty content is text. Content of a
/// recognised format that is no text format is not. Otherwise the content
/// is text unless a tenth of its bytes or more are control bytes.
pub open spec fn text_verdict(bytes: Seq<u8>, mime: Option<Seq<char>>) -> bool {
    if bytes.len() == 0 {
        true
    } else if mime is Some && !is_text_mime(mime->0) {
        false
    } else {
        10 * control_count(bytes) < bytes.len()
    }
}

/// What `infer::get` finds for the content `bytes`: the MIME type of the
/// first known format whose signature the content matches.
pub uninterp spec fn sniffed_mime(bytes: Seq<u8>) -> Option<Seq<char>>;

/// Whether content is taken for text.
pub open spec fn is_text(bytes: Seq<u8>) -> bool {
    text_verdict(bytes, sniffed_mime(bytes))
}

/// Asks `infer::get` for the format of `bytes` and hands back its MIME
/// type. Trusted: the answer depends on the bytes alone.
#[verifier::external_body]
fn sniff_mime(bytes: &[u8]) -> (res: Option<&'static str>)
    ensures
        match res {
            Some(mime) => sniffed_mime(bytes@) == Some(mime@),
            None => sniffed_mime(bytes@) is None,
        },
{
    infer::get(bytes).map(|kind| kind.mime_type())
}

fn mime_is_text(mime: &str) -> (res: bool)
    ensures
        res == is_text_mime(mime@),
{
    let chars = to_chars(mime);
    if chars.len() < 5 {
        return false;
    }
    let head = vstd::slice::slice_subrange(chars.as_slice(), 0, 5);
    assert(chars@.subrange(0, 5) =~= chars@.take(5));
    chars_eq(head, "text/")
}

/// Executable form of [`text_verdict`]: the verdict on content once its
/// signature has been looked up.
pub fn text_verdict_of(bytes: &[u8], mime: Option<&str>) -> (res: bool)
    ensures
        res == text_verdict(
            bytes@,
            match mime {
                Some(m) => Some(m@),
                None => None,
            },
        ),
{
    let n: usize = bytes.len();
    if n == 0 {
        return true;
    }
    if let Some(m) = mime {
        if !mime_is_text(m) {
            return false;
        }
    }
    let ghost pred = |b: u8| is_control_byte(b);
    let mut count: usize = 0;
    let mut i: usize = 0;
    proof {
        reveal(Seq::filter);
        assert(bytes@.take(0) =~= Seq::<u8>::empty());
    }
    while i < n
        invariant
            i <= n,
            n == bytes.len(),
            count <= i,
            count == bytes@.take(i as int).filter(pred).len(),
            pred == |b: u8| is_control_byte(b),
        decreases n - i,
    {
        let b = bytes[i];
        proof {
            assert(bytes@.take(i + 1) =~= bytes@.take(i as int).push(b));
            bytes@.take(i as int).lemma_filter_push(b, pred);
        }
        if b < 32 && b != 9 && b != 10 && b != 13 {
            count += 1;
        }
        i += 1;
    }
    assert(bytes@.take(n as int) =~= bytes@);
    (count as u128) * 10 < (n as u128)
}

/// Check if content appears to be text (not binary)
pub fn is_text_file(bytes: &[u8]) -> (res: bool)
    ensures
        res == is_text(bytes@),
{
    if bytes.len() == 0 {
        return true;
    }
    // A known binary format is no text, whatever its bytes look like
    let mime = sniff_mime(bytes);
    text_verdict_of(bytes, mime)
}

/// Empty content is text, whatever its format is taken for.
pub proof fn lemma_empty_is_text(mime: Option<Seq<char>>)
    ensures
        text_verdict(Seq::<u8>::empty(), mime),
        is_text(Seq::<u8>::empty()),
{
}

/// Content without a control byte is text, unless its signature is that of
/// a format that is no text format.
pub proof fn lemma_plain_content_is_text(bytes: Seq<u8>, mime: Option<Seq<char>>)
    requires
        forall|i: int| 0 <= i < bytes.len() ==> !is_control_byte(#[trigger] bytes[i]),
        mime is Some ==> is_text_mime(mime->0),
    ensures
        text_verdict(bytes, mime),
{
    bytes.lemma_all_neg_filter_empty(|b: u8| is_control_byte(b));
}

/// Content of which a tenth or more are control bytes is never text.
pub proof fn lemma_control_bytes_are_not_text(bytes: Seq<u8>, mime: Option<Seq<char>>)
    requires
        bytes.len() > 0,
        10 * control_count(bytes) >= bytes.len(),
    ensures
        !text_verdict(bytes, mime),
{
}

/// What `pathdiff::diff_paths` returns for `path` and `base`: the way from
/// the directory `base` to `path`, where there is one.
pub uninterp spec fn relative_path(path: Seq<char>, base: Seq<char>) -> Option<Seq<char>>;

/// Calls `pathdiff::diff_paths` and hands back the relative path as text.
/// Trusted: the answer depends on the two paths alone, read by the path
/// rules of the platform that the library is built for.
#[verifier::external_body]
fn diff_paths(path: &str, base: &str) -> (res: Option<String>)
    ensures
        match res {
            Some(rel) => relative_path(path@, base@) == Some(rel@),
            None => relative_path(path@, base@) is None,
        },
{
    pathdiff::diff_paths(path, base).map(|p| p.to_string_lossy().to_string())
}

/// The line that stands for a file, given the relative path that was found
/// for it: the relative path, or the file's own path where there is none.
pub open spec fn entry_given(path: Seq<char>, relative: Option<Seq<char>>) -> Seq<char> {
    match relative {
        Some(rel) => rel,
        None => path,
    }
}

/// The line that stands for the file at `path` in a playlist: the path
/// itself, or its path relative to `base` where a base is given.
pub open spec fn playlist_entry(path: Seq<char>, base: Option<Seq<char>>) -> Seq<char> {
    match base {
        Some(b) => entry_given(path, relative_path(path, b)),
        None => path,
    }
}

/// The lines of a playlist: one for each file, in order.
pub open spec fn playlist_lines(files: Seq<MediaFile>, base: Option<Seq<char>>) -> Seq<Seq<char>> {
    Seq::new(files.len(), |i: int| playlist_entry(files[i].path@, base))
}

/// Executable form of [`entry_given`].
pub fn entry_with(path: &str, relative: Option<String>) -> (res: String)
    ensures
        res@ == entry_given(
            path@,
            match relative {
                Some(rel) => Some(rel@),
                None => None,
            },
        ),
{
    match relative {
        Some(rel) => rel,
        None => String::from_str(path),
    }
}

/// The lines of an m3u file with paths to the given media files: one line
/// for each file, in order, absolute as given or relative to `relative_to`.
pub fn write_m3u(files: &[MediaFile], relative_to: Option<&str>) -> (lines: Vec<String>)
    ensures
        lines@.map_values(|line: String| line@) == playlist_lines(
            files@,
            match relative_to {
                Some(base) => Some(base@),
                None => None,
            },
        ),
{
    let ghost base_text = match relative_to {
        Some(base) => Some(base@),
        None => None,
    };
    let mut lines: Vec<String> = Vec::new();
    let mut i: usize = 0;
    while i < files.len()
        invariant
            i <= files.len(),
            lines.len() == i,
            base_text == match relative_to {
                Some(base) => Some(base@),
                None => None,
            },
            forall|k: int|
                0 <= k < i ==> (#[trigger] lines[k])@ == playlist_entry(files[k].path@, base_text),
        decreases files.len() - i,
    {
        let path = files[i].path.as_str();
        let line = match relative_to {
            Some(base) => entry_with(path, diff_paths(path, base)),
            None => String::from_str(path),
        };
        lines.push(line);
        i += 1;
    }
    assert(lines@.map_values(|line: String| line@) =~= playlist_lines(files@, base_text));
    lines
}

/// The file name of the playlist of the set called `name`.
pub fn playlist_filename(name: &str) -> (res: String)
    ensures
        res@ == name@ + ".m3u"@,
{
    let mut out = String::from_str(name);
    out.append(".m3u");
    out
}

/// Whether a file name is that of a playlist: whether its extension is
/// `m3u`, whatever the case of its ASCII letters.
pub open spec fn is_playlist(name: Seq<char>) -> bool {
    match extension_of(name) {
        Some(ext) => ascii_lower(ext) == "m3u"@,
        None => false,
    }
}

/// Executable form of [`is_playlist`].
pub fn is_playlist_name(name: &str) -> (res: bool)
    ensures
        res == is_playlist(name@),
{
    let chars = to_chars(name);
    match crate::scanner::extension_range(chars.as_slice()) {
        Some(start) => {
            let ext = vstd::slice::slice_subrange(chars.as_slice(), start, chars.len());
            assert(chars@.subrange(start as int, chars.len() as int) =~= chars@.skip(start as int));
            let lower = lower_chars(ext);
            chars_eq(lower.as_slice(), "m3u")
        },
        None => false,
    }
}

} // verus!
