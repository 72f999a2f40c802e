//! Ordering media files by disc number: a stable sort and what holds of it.

use crate::types::MediaFile;
use vstd::prelude::*;

verus! {

/// The key that files are ordered by.
pub open spec fn position(f: MediaFile) -> int {
    f.disc_number.tenths as int
}

/// Whether the positions of `s` never fall from left to right.
pub open spec fn is_sorted(s: Seq<MediaFile>) -> bool {
    forall|i: int, j: int| 0 <= i <= j < s.len() ==> position(s[i]) <= position(s[j])
}

/// The members of `s` that stand at position `p`, in the order of `s`.
pub open spec fn at_position(s: Seq<MediaFile>, p: int) -> Seq<MediaFile> {
    s.filter(|f: MediaFile| position(f) == p)
}

/// Where a file of position `p` enters `s`: behind the last member whose
/// position is not greater.
pub open spec fn insertion_point(s: Seq<MediaFile>, p: int) -> int
    decreases s.len(),
{
    if s.len() == 0 || position(s.last()) <= p {
        s.len() as int
    } else {
        insertion_point(s.drop_last(), p)
    }
}

/// The files of `s` by ascending position, files of equal position in the
/// order in which `s` holds them.
pub open spec fn sort_by_position(s: Seq<MediaFile>) -> Seq<MediaFile>
    decreases s.len(),
{
    if s.len() == 0 {
        s
    } else {
        let sorted = sort_by_position(s.drop_last());
        sorted.insert(insertion_point(sorted, position(s.last())), s.last())
    }
}

/// The insertion point splits a sorted sequence: before it no position is
/// greater than `p`, from it on every position is.
pub proof fn lemma_insertion_point(s: Seq<MediaFile>, p: int)
    requires
        is_sorted(s),
    ensures
        0 <= insertion_point(s, p) <= s.len(),
        forall|i: int| 0 <= i < insertion_point(s, p) ==> position(#[trigger] s[i]) <= p,
        forall|i: int| insertion_point(s, p) <= i < s.len() ==> position(#[trigger] s[i]) > p,
    decreases s.len(),
{
    if s.len() == 0 || position(s.last()) <= p {
    } else {
        lemma_insertion_point(s.drop_last(), p);
        let k = insertion_point(s, p);
        assert forall|i: int| k <= i < s.len() implies position(#[trigger] s[i]) > p by {
            if i < s.len() - 1 {
                assert(s[i] == s.drop_last()[i]);
            }
        }
        assert forall|i: int| 0 <= i < k implies position(#[trigger] s[i]) <= p by {
            assert(s[i] == s.drop_last()[i]);
        }
    }
}

/// Sorting keeps the number of files and leaves their positions in
/// ascending order.
pub proof fn lemma_sort_is_sorted(s: Seq<MediaFile>)
    ensures
        sort_by_position(s).len() == s.len(),
        is_sorted(sort_by_position(s)),
    decreases s.len(),
{
    if s.len() > 0 {
        let prev = sort_by_position(s.drop_last());
        lemma_sort_is_sorted(s.drop_last());
        lemma_insertion_point(prev, position(s.last()));
    }
}

/// Sorting is stable: the files that share a position are the same files
/// in the same order before and after. So sorting drops and invents
/// nothing, and never lets two files of equal position change places.
pub proof fn lemma_sort_is_stable(s: Seq<MediaFile>, p: int)
    ensures
        at_position(sort_by_position(s), p) == at_position(s, p),
    decreases s.len(),
{
    let pred = |f: MediaFile| position(f) == p;
    if s.len() > 0 {
        let prev = sort_by_position(s.drop_last());
        let x = s.last();
        let k = insertion_point(prev, position(x));
        lemma_sort_is_stable(s.drop_last(), p);
        lemma_sort_is_sorted(s.drop_last());
        lemma_insertion_point(prev, position(x));
        let head = prev.take(k);
        let tail = prev.skip(k);
        assert(prev =~= head + tail);
        assert(prev.insert(k, x) =~= head.push(x) + tail);
        Seq::filter_distributes_over_add(head, tail, pred);
        Seq::filter_distributes_over_add(head.push(x), tail, pred);
        head.lemma_filter_push(x, pred);
        assert(s =~= s.drop_last().push(x));
        s.drop_last().lemma_filter_push(x, pred);
        if pred(x) {
            assert forall|i: int| 0 <= i < tail.len() implies !pred(#[trigger] tail[i]) by {
                assert(tail[i] == prev[k + i]);
            }
            tail.lemma_all_neg_filter_empty(pred);
            assert(tail.filter(pred) =~= Seq::<MediaFile>::empty());
            assert(head.filter(pred) + tail.filter(pred) =~= head.filter(pred));
            assert(head.filter(pred).push(x) + tail.filter(pred) =~= head.filter(pred).push(x));
        }
    }
}

/// Sorts `files` by ascending position, keeping files of equal position in
/// the order in which they came.
pub fn sort_files(files: Vec<MediaFile>) -> (sorted: Vec<MediaFile>)
    ensures
        sorted@ == sort_by_position(files@),
{
    let mut sorted: Vec<MediaFile> = Vec::new();
    let ghost all = files@;
    assert(all.take(0) =~= Seq::<MediaFile>::empty());
    for file in it: files
        invariant
            it.seq() == all,
            sorted@ == sort_by_position(all.take(it.index() as int)),
    {
        let ghost before = sorted@;
        let mut k: usize = sorted.len();
        assert(before.take(before.len() as int) =~= before);
        while k > 0 && sorted[k - 1].disc_number.tenths > file.disc_number.tenths
            invariant
                k <= sorted.len(),
                sorted@ == before,
                insertion_point(before.take(k as int), position(file)) == insertion_point(
                    before,
                    position(file),
                ),
            decreases k,
        {
            assert(before.take(k as int).drop_last() =~= before.take(k - 1));
            k -= 1;
        }
        proof {
            let n = it.index() as int;
            assert(all.take(n + 1).drop_last() =~= all.take(n));
            assert(all.take(n + 1).last() == file);
        }
        sorted.insert(k, file);
    }
    assert(all.take(all.len() as int) =~= all);
    sorted
}

/// The positions of the files of `s`, in order.
pub open spec fn positions(s: Seq<MediaFile>) -> Seq<int> {
    s.map_values(|f: MediaFile| position(f))
}

/// Sorting rearranges: the sorted files are the given files, each as often
/// as it was given.
pub proof fn lemma_sort_is_permutation(s: Seq<MediaFile>)
    ensures
        sort_by_position(s).to_multiset() == s.to_multiset(),
    decreases s.len(),
{
    broadcast use vstd::seq_lib::group_to_multiset_ensures;

    if s.len() > 0 {
        let prev = sort_by_position(s.drop_last());
        lemma_sort_is_permutation(s.drop_last());
        lemma_sort_is_sorted(s.drop_last());
        lemma_insertion_point(prev, position(s.last()));
        assert(s =~= s.drop_last().push(s.last()));
    } else {
        assert(sort_by_position(s) =~= s);
    }
}

/// Two arrangements of the same files hold the same positions, each as
/// often in the one as in the other.
pub proof fn lemma_positions_of_permutation(a: Seq<MediaFile>, b: Seq<MediaFile>)
    requires
        a.to_multiset() == b.to_multiset(),
    ensures
        positions(a).to_multiset() == positions(b).to_multiset(),
    decreases a.len(),
{
    broadcast use vstd::seq_lib::group_to_multiset_ensures;

    if a.len() == 0 {
        a.to_multiset_ensures();
        b.to_multiset_ensures();
        assert(b.len() == 0);
        assert(positions(a) =~= positions(b));
    } else {
        let x = a.last();
        assert(a =~= a.drop_last().push(x));
        assert(a.to_multiset().count(x) > 0);
        assert(b.contains(x));
        let j = choose|j: int| 0 <= j < b.len() && b[j] == x;
        let shorter = b.remove(j);
        assert(a.drop_last() =~= a.remove(a.len() - 1));
        assert(a.drop_last().to_multiset() =~= shorter.to_multiset());
        lemma_positions_of_permutation(a.drop_last(), shorter);
        assert(positions(a) =~= positions(a.drop_last()).push(position(x)));
        assert(positions(b) =~= positions(shorter).insert(j, position(x)));
    }
}

/// The order in which the files are given does not change the order of
/// positions that sorting yields: two arrangements of the same files lead
/// to one sequence of positions.
pub proof fn lemma_sort_ignores_input_order(a: Seq<MediaFile>, b: Seq<MediaFile>)
    requires
        a.to_multiset() == b.to_multiset(),
    ensures
        positions(sort_by_position(a)) == positions(sort_by_position(b)),
{
    let leq = |x: int, y: int| x <= y;
    let pa = positions(sort_by_position(a));
    let pb = positions(sort_by_position(b));
    lemma_sort_is_permutation(a);
    lemma_sort_is_permutation(b);
    lemma_sort_is_sorted(a);
    lemma_sort_is_sorted(b);
    lemma_positions_of_permutation(sort_by_position(a), sort_by_position(b));
    assert(vstd::relations::sorted_by(pa, leq));
    assert(vstd::relations::sorted_by(pb, leq));
    assert(vstd::relations::total_ordering(leq));
    vstd::seq_lib::lemma_sorted_unique(pa, pb, leq);
}

/// A file of position `p` enters between a part whose positions do not
/// exceed `p` and a part whose positions all do.
pub proof fn lemma_insertion_point_between(a: Seq<MediaFile>, b: Seq<MediaFile>, p: int)
    requires
        forall|i: int| 0 <= i < a.len() ==> position(#[trigger] a[i]) <= p,
        forall|i: int| 0 <= i < b.len() ==> position(#[trigger] b[i]) > p,
    ensures
        insertion_point(a + b, p) == a.len(),
    decreases b.len(),
{
    if b.len() == 0 {
        assert(a + b =~= a);
    } else {
        assert((a + b).last() == b.last());
        assert((a + b).drop_last() =~= a + b.drop_last());
        assert forall|i: int| 0 <= i < b.drop_last().len() implies position(
            #[trigger] b.drop_last()[i],
        ) > p by {
            assert(b.drop_last()[i] == b[i]);
        }
        lemma_insertion_point_between(a, b.drop_last(), p);
    }
}

/// Sorting and choosing commute: the files of a kind, taken from the sorted
/// files, are the files of that kind sorted among themselves.
pub proof fn lemma_sort_then_filter(s: Seq<MediaFile>, pred: spec_fn(MediaFile) -> bool)
    ensures
        sort_by_position(s).filter(pred) == sort_by_position(s.filter(pred)),
    decreases s.len(),
{
    if s.len() == 0 {
        reveal(Seq::filter);
        assert(s.filter(pred) =~= s);
    } else {
        let x = s.last();
        let p = position(x);
        let prev = sort_by_position(s.drop_last());
        let k = insertion_point(prev, p);
        lemma_sort_then_filter(s.drop_last(), pred);
        lemma_sort_is_sorted(s.drop_last());
        lemma_insertion_point(prev, p);
        let head = prev.take(k);
        let tail = prev.skip(k);
        assert(prev =~= head + tail);
        assert(prev.insert(k, x) =~= head.push(x) + tail);
        Seq::filter_distributes_over_add(head, tail, pred);
        Seq::filter_distributes_over_add(head.push(x), tail, pred);
        head.lemma_filter_push(x, pred);
        assert(s =~= s.drop_last().push(x));
        s.drop_last().lemma_filter_push(x, pred);
        if pred(x) {
            let fh = head.filter(pred);
            let ft = tail.filter(pred);
            assert forall|i: int| 0 <= i < fh.len() implies position(#[trigger] fh[i]) <= p by {
                assert(fh.contains(fh[i]));
                head.lemma_filter_contains_rev(pred, fh[i]);
                let j = choose|j: int| 0 <= j < head.len() && head[j] == fh[i];
                assert(head[j] == prev[j]);
            }
            assert forall|i: int| 0 <= i < ft.len() implies position(#[trigger] ft[i]) > p by {
                assert(ft.contains(ft[i]));
                tail.lemma_filter_contains_rev(pred, ft[i]);
                let j = choose|j: int| 0 <= j < tail.len() && tail[j] == ft[i];
                assert(tail[j] == prev[k + j]);
            }
            lemma_insertion_point_between(fh, ft, p);
            assert((fh + ft).insert(fh.len() as int, x) =~= fh.push(x) + ft);
            assert(s.filter(pred).drop_last() =~= s.drop_last().filter(pred));
        }
    }
}

/// The order within the files of one position decides a sorted sequence:
/// two sorted sequences that hold, at every position, the same files in
/// the same order are equal.
pub proof fn lemma_sorted_and_stable_is_unique(r: Seq<MediaFile>, t: Seq<MediaFile>)
    requires
        is_sorted(r),
        is_sorted(t),
        forall|p: int| at_position(r, p) == at_position(t, p),
    ensures
        r == t,
    decreases r.len(),
{
    if r.len() == 0 {
        if t.len() > 0 {
            let q = position(t[0]);
            t.lemma_filter_contains(|f: MediaFile| position(f) == q, 0);
            reveal(Seq::filter);
            assert(at_position(r, q).len() == 0);
        }
        assert(r =~= t);
    } else {
        let x = r.last();
        let p = position(x);
        let same = |f: MediaFile| position(f) == p;
        assert(r =~= r.drop_last().push(x));
        r.drop_last().lemma_filter_push(x, same);
        assert(at_position(r, p).last() == x);
        assert(at_position(t, p).len() > 0);
        if t.len() == 0 {
            reveal(Seq::filter);
            assert(false);
        }
        let y = t.last();
        let q = position(y);
        let same_q = |f: MediaFile| position(f) == q;
        assert(t =~= t.drop_last().push(y));
        t.drop_last().lemma_filter_push(y, same_q);
        assert(at_position(t, q).last() == y);
        // The last file of `t` stands at the position of the last file of `r`.
        assert(q <= p) by {
            let c = at_position(r, q);
            assert(c.len() > 0);
            assert(c.contains(c[0]));
            r.lemma_filter_contains_rev(same_q, c[0]);
            r.lemma_filter_pred(same_q, 0);
            let i = choose|i: int| 0 <= i < r.len() && r[i] == c[0];
            assert(position(r[i]) <= position(r[r.len() - 1]));
        }
        assert(p <= q) by {
            let c = at_position(t, p);
            assert(c.contains(c[0]));
            t.lemma_filter_contains_rev(same, c[0]);
            t.lemma_filter_pred(same, 0);
            let i = choose|i: int| 0 <= i < t.len() && t[i] == c[0];
            assert(position(t[i]) <= position(t[t.len() - 1]));
        }
        assert(x == y);
        assert forall|k: int| at_position(r.drop_last(), k) == at_position(t.drop_last(), k) by {
            let at_k = |f: MediaFile| position(f) == k;
            r.drop_last().lemma_filter_push(x, at_k);
            t.drop_last().lemma_filter_push(y, at_k);
            assert(at_position(r, k) == at_position(t, k));
            assert(at_position(r, k) == r.drop_last().push(x).filter(at_k));
            assert(at_position(t, k) == t.drop_last().push(y).filter(at_k));
            if k == p {
                assert(at_position(r.drop_last(), k).push(x).drop_last() =~= at_position(
                    r.drop_last(),
                    k,
                ));
                assert(at_position(t.drop_last(), k).push(y).drop_last() =~= at_position(
                    t.drop_last(),
                    k,
                ));
            }
        }
        assert(is_sorted(r.drop_last())) by {
            assert forall|i: int, j: int| 0 <= i <= j < r.drop_last().len() implies position(
                r.drop_last()[i],
            ) <= position(r.drop_last()[j]) by {
                assert(r.drop_last()[i] == r[i] && r.drop_last()[j] == r[j]);
            }
        }
        assert(is_sorted(t.drop_last())) by {
            assert forall|i: int, j: int| 0 <= i <= j < t.drop_last().len() implies position(
                t.drop_last()[i],
            ) <= position(t.drop_last()[j]) by {
                assert(t.drop_last()[i] == t[i] && t.drop_last()[j] == t[j]);
            }
        }
        lemma_sorted_and_stable_is_unique(r.drop_last(), t.drop_last());
    }
}

/// Sorting is the one stable arrangement by position: a sequence is the
/// sorted form of `s` if and only if its positions ascend and it holds, at
/// every position, the files that `s` holds there, in the order of `s`.
pub proof fn lemma_sort_is_the_stable_order(s: Seq<MediaFile>, r: Seq<MediaFile>)
    ensures
        r == sort_by_position(s) <==> is_sorted(r) && forall|p: int|
            at_position(r, p) == at_position(s, p),
{
    lemma_sort_is_sorted(s);
    assert forall|p: int| at_position(sort_by_position(s), p) == at_position(s, p) by {
        lemma_sort_is_stable(s, p);
    }
    if is_sorted(r) && forall|p: int| at_position(r, p) == at_position(s, p) {
        lemma_sorted_and_stable_is_unique(r, sort_by_position(s));
    }
}

} // verus!
