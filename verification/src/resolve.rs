//! The dump-file resolver core.
//!
//! The surrounding runtime expands a path-or-prefix into candidate files by
//! listing a directory; this module turns those candidates into the ordered,
//! de-duplicated list actually searched.  The names are sorted
//! lexicographically and, where two adjacent names share a stem (the name
//! with a trailing `.7z` or `.bz2` stripped), only the first survives; since
//! a plain name sorts before its `.7z` variant and that before its `.bz2`
//! variant, the preference is plain over 7z over bz2.

use vstd::prelude::*;

use vstd::multiset::Multiset;
use vstd::relations::sorted_by;
use vstd::relations::total_ordering;
use vstd::seq_lib::lemma_sorted_unique;

use crate::errors::Error;
use crate::options::ends_with;

verus! {

/// Byte-wise lexicographic order on names, the order `sort` gives strings.
pub open spec fn lex_le(a: Seq<u8>, b: Seq<u8>) -> bool
    decreases a.len(),
{
    if a.len() == 0 {
        true
    } else if b.len() == 0 {
        false
    } else if a[0] < b[0] {
        true
    } else if a[0] > b[0] {
        false
    } else {
        lex_le(a.drop_first(), b.drop_first())
    }
}

/// [`lex_le`] as a relation value, for the sorting vocabulary of vstd.
pub open spec fn lex_leq_fn() -> spec_fn(Seq<u8>, Seq<u8>) -> bool {
    |a: Seq<u8>, b: Seq<u8>| lex_le(a, b)
}

proof fn lemma_lex_refl(a: Seq<u8>)
    ensures
        lex_le(a, a),
    decreases a.len(),
{
    if a.len() > 0 {
        lemma_lex_refl(a.drop_first());
    }
}

proof fn lemma_lex_conn(a: Seq<u8>, b: Seq<u8>)
    ensures
        lex_le(a, b) || lex_le(b, a),
    decreases a.len(),
{
    if a.len() > 0 && b.len() > 0 && a[0] == b[0] {
        lemma_lex_conn(a.drop_first(), b.drop_first());
    }
}

proof fn lemma_lex_antisym(a: Seq<u8>, b: Seq<u8>)
    requires
        lex_le(a, b),
        lex_le(b, a),
    ensures
        a == b,
    decreases a.len(),
{
    if a.len() == 0 {
        assert(b.len() == 0);
        assert(a =~= b);
    } else {
        assert(b.len() > 0);
        assert(a[0] == b[0]);
        lemma_lex_antisym(a.drop_first(), b.drop_first());
        assert(a =~= seq![a[0]] + a.drop_first());
        assert(b =~= seq![b[0]] + b.drop_first());
    }
}

proof fn lemma_lex_trans(a: Seq<u8>, b: Seq<u8>, c: Seq<u8>)
    requires
        lex_le(a, b),
        lex_le(b, c),
    ensures
        lex_le(a, c),
    decreases a.len(),
{
    if a.len() > 0 {
        assert(b.len() > 0);
        assert(c.len() > 0);
        if a[0] == b[0] && b[0] == c[0] {
            lemma_lex_trans(a.drop_first(), b.drop_first(), c.drop_first());
        }
    }
}

/// Lexicographic order on byte sequences is a total order.
pub proof fn lemma_lex_le_total()
    ensures
        total_ordering(lex_leq_fn()),
{
    let r = lex_leq_fn();
    assert forall|a: Seq<u8>| #[trigger] r(a, a) by {
        lemma_lex_refl(a);
    }
    assert forall|a: Seq<u8>, b: Seq<u8>| #[trigger] r(a, b) && #[trigger] r(b, a) implies a == b by {
        lemma_lex_antisym(a, b);
    }
    assert forall|a: Seq<u8>, b: Seq<u8>, c: Seq<u8>|
        #[trigger] r(a, b) && #[trigger] r(b, c) implies r(a, c) by {
        lemma_lex_trans(a, b, c);
    }
    assert forall|a: Seq<u8>, b: Seq<u8>| #[trigger] r(a, b) || #[trigger] r(b, a) by {
        lemma_lex_conn(a, b);
    }
}

/// Equal prefixes do not decide the order: it is decided by the remainders.
proof fn lemma_lex_le_skip(a: Seq<u8>, b: Seq<u8>, i: int)
    requires
        0 <= i <= a.len(),
        i <= b.len(),
        forall|j: int| 0 <= j < i ==> a[j] == b[j],
    ensures
        lex_le(a, b) == lex_le(a.skip(i), b.skip(i)),
    decreases i,
{
    if i > 0 {
        assert(a.len() > 0 && b.len() > 0 && a[0] == b[0]);
        lemma_lex_le_skip(a.drop_first(), b.drop_first(), i - 1);
        assert(a.drop_first().skip(i - 1) =~= a.skip(i));
        assert(b.drop_first().skip(i - 1) =~= b.skip(i));
    } else {
        assert(a.skip(0) =~= a);
        assert(b.skip(0) =~= b);
    }
}

/// Compares two names in byte-wise lexicographic order.
pub fn lex_le_bytes(a: &Vec<u8>, b: &Vec<u8>) -> (r: bool)
    ensures
        r == lex_le(a@, b@),
{
    let a_len = a.len();
    let b_len = b.len();
    let mut i: usize = 0;
    while i < a_len && i < b_len
        invariant
            a_len == a@.len(),
            b_len == b@.len(),
            0 <= i <= a_len,
            i <= b_len,
            forall|j: int| 0 <= j < i ==> a@[j] == b@[j],
        decreases a_len - i,
    {
        if a[i] < b[i] {
            proof {
                lemma_lex_le_skip(a@, b@, i as int);
                assert(a@.skip(i as int)[0] == a@[i as int]);
                assert(b@.skip(i as int)[0] == b@[i as int]);
            }
            return true;
        }
        if a[i] > b[i] {
            proof {
                lemma_lex_le_skip(a@, b@, i as int);
                assert(a@.skip(i as int)[0] == a@[i as int]);
                assert(b@.skip(i as int)[0] == b@[i as int]);
            }
            return false;
        }
        i = i + 1;
    }
    proof {
        lemma_lex_le_skip(a@, b@, i as int);
        if i == a_len {
            assert(a@.skip(i as int).len() == 0);
        } else {
            assert(b@.skip(i as int).len() == 0);
            assert(a@.skip(i as int).len() > 0);
        }
    }
    i == a_len
}

/// The stem of a file name: the name with one trailing `.7z` or `.bz2`
/// stripped, or the name itself.
pub open spec fn spec_stem(s: Seq<u8>) -> Seq<u8> {
    if ends_with(s, seq![46u8, 55u8, 122u8]) {
        s.take(s.len() - 3)
    } else if ends_with(s, seq![46u8, 98u8, 122u8, 50u8]) {
        s.take(s.len() - 4)
    } else {
        s
    }
}

/// The length of the stem of `name`; the stem is the prefix of that length.
pub fn stem_len(name: &Vec<u8>) -> (r: usize)
    ensures
        r <= name@.len(),
        name@.take(r as int) == spec_stem(name@),
{
    let n = name.len();
    let seven_z = n >= 3 && name[n - 3] == 46 && name[n - 2] == 55 && name[n - 1] == 122;
    let bz2 = n >= 4 && name[n - 4] == 46 && name[n - 3] == 98 && name[n - 2] == 122
        && name[n - 1] == 50;
    proof {
        if seven_z {
            assert(name@.skip(n - 3) =~= seq![46u8, 55u8, 122u8]);
        }
        if bz2 {
            assert(name@.skip(n - 4) =~= seq![46u8, 98u8, 122u8, 50u8]);
        }
        if !seven_z && ends_with(name@, seq![46u8, 55u8, 122u8]) {
            assert(name@.skip(n - 3)[0] == name@[n - 3]);
            assert(name@.skip(n - 3)[1] == name@[n - 2]);
            assert(name@.skip(n - 3)[2] == name@[n - 1]);
        }
        if !bz2 && ends_with(name@, seq![46u8, 98u8, 122u8, 50u8]) {
            assert(name@.skip(n - 4)[0] == name@[n - 4]);
            assert(name@.skip(n - 4)[1] == name@[n - 3]);
            assert(name@.skip(n - 4)[2] == name@[n - 2]);
            assert(name@.skip(n - 4)[3] == name@[n - 1]);
        }
        if !seven_z && !bz2 {
            assert(name@.take(n as int) =~= name@);
        }
    }
    if seven_z {
        n - 3
    } else if bz2 {
        n - 4
    } else {
        n
    }
}

/// Do two names share a stem?
pub fn stems_equal(a: &Vec<u8>, b: &Vec<u8>) -> (r: bool)
    ensures
        r == (spec_stem(a@) == spec_stem(b@)),
{
    let la = stem_len(a);
    let lb = stem_len(b);
    if la != lb {
        proof {
            assert(spec_stem(a@).len() != spec_stem(b@).len());
        }
        return false;
    }
    let mut i: usize = 0;
    while i < la
        invariant
            la == lb,
            la <= a@.len(),
            lb <= b@.len(),
            0 <= i <= la,
            a@.take(la as int) == spec_stem(a@),
            b@.take(lb as int) == spec_stem(b@),
            forall|j: int| 0 <= j < i ==> a@[j] == b@[j],
        decreases la - i,
    {
        if a[i] != b[i] {
            proof {
                assert(spec_stem(a@)[i as int] == a@[i as int]);
                assert(spec_stem(b@)[i as int] == b@[i as int]);
            }
            return false;
        }
        i = i + 1;
    }
    proof {
        assert(a@.take(la as int) =~= b@.take(lb as int));
    }
    true
}

/// The views of a list of names.
pub open spec fn path_seq(s: Seq<Vec<u8>>) -> Seq<Seq<u8>> {
    s.map_values(|v: Vec<u8>| v@)
}

/// The walk that removes compression variants: a name is dropped exactly when
/// its stem equals the stem of the name kept just before it.
pub open spec fn spec_dedup(s: Seq<Seq<u8>>) -> Seq<Seq<u8>>
    decreases s.len(),
{
    if s.len() == 0 {
        Seq::empty()
    } else {
        let front = spec_dedup(s.drop_last());
        if s.len() == 1 {
            seq![s.last()]
        } else if spec_stem(s.last()) == spec_stem(front.last()) {
            front
        } else {
            front.push(s.last())
        }
    }
}

/// De-duplication keeps at least one name and never invents one.
pub proof fn lemma_dedup_len(s: Seq<Seq<u8>>)
    ensures
        s.len() >= 1 ==> spec_dedup(s).len() >= 1,
        spec_dedup(s).len() <= s.len(),
    decreases s.len(),
{
    if s.len() > 0 {
        lemma_dedup_len(s.drop_last());
    }
}

/// A fresh copy of a byte string.
fn clone_bytes(v: &Vec<u8>) -> (r: Vec<u8>)
    ensures
        r@ == v@,
{
    let mut r: Vec<u8> = Vec::new();
    let n = v.len();
    let mut i: usize = 0;
    while i < n
        invariant
            n == v@.len(),
            0 <= i <= n,
            r@ =~= v@.take(i as int),
        decreases n - i,
    {
        r.push(v[i]);
        proof {
            assert(r@ =~= v@.take(i + 1));
        }
        i = i + 1;
    }
    proof {
        assert(v@.take(n as int) =~= v@);
    }
    r
}

/// Walks a sorted list of names and keeps a name only when its stem differs
/// from the stem of the name kept just before it.
fn dedup_paths(sorted: &Vec<Vec<u8>>) -> (r: Vec<Vec<u8>>)
    ensures
        path_seq(r@) == spec_dedup(path_seq(sorted@)),
{
    let ghost views = path_seq(sorted@);
    let n = sorted.len();
    let mut out: Vec<Vec<u8>> = Vec::new();
    let mut i: usize = 0;
    proof {
        assert(views.take(0) =~= Seq::<Seq<u8>>::empty());
        assert(path_seq(out@) =~= spec_dedup(views.take(0)));
    }
    while i < n
        invariant
            n == sorted@.len(),
            views == path_seq(sorted@),
            0 <= i <= n,
            path_seq(out@) == spec_dedup(views.take(i as int)),
            i > 0 ==> out@.len() >= 1,
        decreases n - i,
    {
        proof {
            lemma_dedup_len(views.take(i as int));
        }
        let keep: bool = if out.len() == 0 {
            true
        } else {
            let last_idx = out.len() - 1;
            proof {
                assert(path_seq(out@)[last_idx as int] == out@[last_idx as int]@);
            }
            !stems_equal(&sorted[i], &out[last_idx])
        };
        proof {
            assert(views.take(i + 1).drop_last() =~= views.take(i as int));
            assert(views.take(i + 1).last() == sorted@[i as int]@);
        }
        if keep {
            let x = clone_bytes(&sorted[i]);
            out.push(x);
            proof {
                assert(path_seq(out@) =~= spec_dedup(views.take(i as int)).push(sorted@[i as int]@));
                if i == 0 {
                    assert(views.take(1) =~= seq![views[0]]);
                    assert(spec_dedup(views.take(1)) =~= seq![sorted@[0int]@]);
                    assert(path_seq(out@) =~= spec_dedup(views.take(1)));
                } else {
                    assert(path_seq(out@) =~= spec_dedup(views.take(i + 1)));
                }
            }
        } else {
            proof {
                assert(path_seq(out@) =~= spec_dedup(views.take(i + 1)));
            }
        }
        i = i + 1;
    }
    proof {
        assert(views.take(n as int) =~= views);
    }
    out
}

proof fn lemma_path_seq_remove(s: Seq<Vec<u8>>, i: int)
    requires
        0 <= i < s.len(),
    ensures
        path_seq(s.remove(i)) =~= path_seq(s).remove(i),
{
    assert forall|j: int| 0 <= j < s.len() - 1 implies
        path_seq(s.remove(i))[j] == path_seq(s).remove(i)[j] by {
        if j < i {
            assert(s.remove(i)[j] == s[j]);
        } else {
            assert(s.remove(i)[j] == s[j + 1]);
        }
    }
}

/// Sorts names in byte-wise lexicographic order: the result is exactly the
/// sorted permutation of the input.
fn sort_paths(paths: Vec<Vec<u8>>) -> (r: Vec<Vec<u8>>)
    ensures
        path_seq(r@) == path_seq(paths@).sort_by(lex_leq_fn()),
{
    broadcast use vstd::seq_lib::group_to_multiset_ensures;

    let ghost target = path_seq(paths@);
    let ghost leq = lex_leq_fn();
    let mut rem = paths;
    let mut out: Vec<Vec<u8>> = Vec::new();
    proof {
        assert(path_seq(out@) =~= Seq::<Seq<u8>>::empty());
        assert(path_seq(out@).to_multiset().add(path_seq(rem@).to_multiset())
            =~= target.to_multiset());
    }
    while rem.len() > 0
        invariant
            leq == lex_leq_fn(),
            sorted_by(path_seq(out@), leq),
            path_seq(out@).to_multiset().add(path_seq(rem@).to_multiset())
                == target.to_multiset(),
            forall|a: int, b: int| 0 <= a < out@.len() && 0 <= b < rem@.len()
                ==> lex_le(#[trigger] out@[a]@, #[trigger] rem@[b]@),
        decreases rem@.len(),
    {
        let mut mi: usize = 0;
        let mut k: usize = 1;
        proof {
            lemma_lex_refl(rem@[0]@);
        }
        while k < rem.len()
            invariant
                rem@.len() >= 1,
                0 <= mi < k <= rem@.len(),
                forall|j: int| 0 <= j < k ==> lex_le(rem@[mi as int]@, #[trigger] rem@[j]@),
            decreases rem@.len() - k,
        {
            if lex_le_bytes(&rem[k], &rem[mi]) {
                proof {
                    assert forall|j: int| 0 <= j < k + 1 implies
                        lex_le(rem@[k as int]@, #[trigger] rem@[j]@) by {
                        if j < k {
                            lemma_lex_trans(rem@[k as int]@, rem@[mi as int]@, rem@[j]@);
                        } else {
                            lemma_lex_refl(rem@[k as int]@);
                        }
                    }
                }
                mi = k;
            } else {
                proof {
                    lemma_lex_conn(rem@[k as int]@, rem@[mi as int]@);
                }
            }
            k = k + 1;
        }
        let ghost out_before = out@;
        let ghost rem_before = rem@;
        let ghost xv = rem@[mi as int]@;
        let x = rem.remove(mi);
        out.push(x);
        proof {
            lemma_path_seq_remove(rem_before, mi as int);
            assert(path_seq(out@) =~= path_seq(out_before).push(xv));
            let old_out_ms = path_seq(out_before).to_multiset();
            let old_rem_ms = path_seq(rem_before).to_multiset();
            path_seq(rem_before).to_multiset_ensures();
            path_seq(out_before).to_multiset_ensures();
            assert(path_seq(rem_before)[mi as int] == xv);
            assert(path_seq(rem_before).contains(xv));
            assert(path_seq(rem_before).remove(mi as int).to_multiset()
                =~= old_rem_ms.remove(xv));
            assert(path_seq(rem@) == path_seq(rem_before).remove(mi as int));
            assert(path_seq(rem@).to_multiset() =~= old_rem_ms.remove(xv));
            assert(path_seq(out_before).push(xv).to_multiset() =~= old_out_ms.insert(xv));
            assert(path_seq(out@).to_multiset() =~= old_out_ms.insert(xv));
            assert(path_seq(out@).to_multiset().add(path_seq(rem@).to_multiset())
                =~= old_out_ms.add(old_rem_ms));
            // the appended minimum keeps the output sorted
            assert forall|a: int, b: int|
                0 <= a < b < path_seq(out@).len() implies leq(path_seq(out@)[a], path_seq(out@)[b]) by {
                if b == path_seq(out@).len() - 1 {
                    assert(lex_le(out_before[a]@, rem_before[mi as int]@));
                } else {
                    assert(leq(path_seq(out_before)[a], path_seq(out_before)[b]));
                }
            }
            // everything in the output still precedes everything left over
            assert forall|a: int, b: int| 0 <= a < out@.len() && 0 <= b < rem@.len() implies
                lex_le(#[trigger] out@[a]@, #[trigger] rem@[b]@) by {
                let src = if b < mi { b } else { b + 1 };
                assert(rem@[b] == rem_before[src]);
                if a < out_before.len() {
                    assert(lex_le(out_before[a]@, rem_before[src]@));
                } else {
                    assert(out@[a]@ == xv);
                    assert(lex_le(rem_before[mi as int]@, rem_before[src]@));
                }
            }
        }
    }
    proof {
        assert(path_seq(rem@) =~= Seq::<Seq<u8>>::empty());
        path_seq(rem@).to_multiset_ensures();
        assert(path_seq(rem@).to_multiset().len() == 0);
        assert(path_seq(rem@).to_multiset() =~= Multiset::<Seq<u8>>::empty());
        assert(path_seq(out@).to_multiset().add(Multiset::<Seq<u8>>::empty())
            =~= path_seq(out@).to_multiset());
        lemma_lex_le_total();
        target.lemma_sort_by_ensures(leq);
        assert(path_seq(out@).to_multiset() == target.sort_by(leq).to_multiset());
        lemma_sorted_unique(path_seq(out@), target.sort_by(leq), leq);
    }
    out
}

/// One candidate found by listing the directory: a file name and the file's
/// byte length.
pub struct DumpFileCandidate {
    pub path: Vec<u8>,
    pub size: u64,
}

/// The paths of the candidates.
pub open spec fn spec_paths(c: Seq<DumpFileCandidate>) -> Seq<Seq<u8>> {
    c.map_values(|x: DumpFileCandidate| x.path@)
}

/// The sum of all candidates' sizes; it bounds the resolver's arithmetic,
/// since the total it returns counts a subset of the candidates.
pub open spec fn spec_total_size(c: Seq<DumpFileCandidate>) -> int
    decreases c.len(),
{
    if c.len() == 0 {
        0
    } else {
        spec_total_size(c.drop_last()) + c.last().size
    }
}

proof fn lemma_total_size_step(c: Seq<DumpFileCandidate>, i: int)
    requires
        0 <= i < c.len(),
    ensures
        spec_total_size(c.take(i + 1)) == spec_total_size(c.take(i)) + c[i].size,
{
    assert(c.take(i + 1).drop_last() =~= c.take(i));
    assert(c.take(i + 1).last() == c[i]);
}

proof fn lemma_total_size_take_le(c: Seq<DumpFileCandidate>, i: int)
    requires
        0 <= i <= c.len(),
    ensures
        spec_total_size(c.take(i)) <= spec_total_size(c),
        spec_total_size(c.take(i)) >= 0,
    decreases c.len() - i,
{
    if i == c.len() {
        assert(c.take(i) =~= c);
        lemma_total_size_nonneg(c);
    } else {
        lemma_total_size_step(c, i);
        lemma_total_size_take_le(c, i + 1);
        lemma_total_size_nonneg(c.take(i));
    }
}

proof fn lemma_total_size_nonneg(c: Seq<DumpFileCandidate>)
    ensures
        spec_total_size(c) >= 0,
    decreases c.len(),
{
    if c.len() > 0 {
        lemma_total_size_nonneg(c.drop_last());
    }
}

/// The sum of the sizes of the candidates whose paths stand in `kept`,
/// counting each path once: only a path's first candidate contributes.
pub open spec fn spec_kept_total(c: Seq<DumpFileCandidate>, kept: Seq<Seq<u8>>) -> int
    decreases c.len(),
{
    if c.len() == 0 {
        0
    } else {
        spec_kept_total(c.drop_last(), kept) + (if kept.contains(c.last().path@)
            && !spec_paths(c.drop_last()).contains(c.last().path@) {
            c.last().size as int
        } else {
            0
        })
    }
}

proof fn lemma_kept_total_step(c: Seq<DumpFileCandidate>, kept: Seq<Seq<u8>>, j: int)
    requires
        0 <= j < c.len(),
    ensures
        spec_kept_total(c.take(j + 1), kept) == spec_kept_total(c.take(j), kept) + (
        if kept.contains(c[j].path@) && !spec_paths(c.take(j)).contains(c[j].path@) {
            c[j].size as int
        } else {
            0int
        }),
{
    assert(c.take(j + 1).drop_last() =~= c.take(j));
    assert(c.take(j + 1).last() == c[j]);
}

/// A total over a subset of the candidates stays within the full sum.
proof fn lemma_kept_total_bounds(c: Seq<DumpFileCandidate>, kept: Seq<Seq<u8>>)
    ensures
        0 <= spec_kept_total(c, kept) <= spec_total_size(c),
    decreases c.len(),
{
    if c.len() > 0 {
        lemma_kept_total_bounds(c.drop_last(), kept);
    }
}

/// The resolver's output as a function of the candidates alone: the paths,
/// sorted lexicographically, with adjacent compression variants removed.
pub open spec fn spec_resolved(c: Seq<DumpFileCandidate>) -> Seq<Seq<u8>> {
    spec_dedup(spec_paths(c).sort_by(lex_leq_fn()))
}

/// Is `path` one of the names in `files`?
fn path_in_files(files: &Vec<Vec<u8>>, path: &Vec<u8>) -> (r: bool)
    ensures
        r == path_seq(files@).contains(path@),
{
    let n = files.len();
    let mut i: usize = 0;
    while i < n
        invariant
            n == files@.len(),
            0 <= i <= n,
            forall|k: int| 0 <= k < i ==> #[trigger] files@[k]@ != path@,
        decreases n - i,
    {
        if crate::extract::bytes_equal(&files[i], path) {
            proof {
                assert(path_seq(files@)[i as int] == path@);
            }
            return true;
        }
        i = i + 1;
    }
    proof {
        if path_seq(files@).contains(path@) {
            let w = choose|w: int| 0 <= w < path_seq(files@).len()
                && path_seq(files@)[w] == path@;
            assert(files@[w]@ == path@);
            assert(false);
        }
    }
    false
}

/// Does `path` occur among the first `j` candidates?
fn path_among(candidates: &Vec<DumpFileCandidate>, j: usize, path: &Vec<u8>) -> (r: bool)
    requires
        j <= candidates@.len(),
    ensures
        r == spec_paths(candidates@.take(j as int)).contains(path@),
{
    let mut i: usize = 0;
    while i < j
        invariant
            j <= candidates@.len(),
            0 <= i <= j,
            forall|k: int| 0 <= k < i ==> #[trigger] candidates@[k].path@ != path@,
        decreases j - i,
    {
        if crate::extract::bytes_equal(&candidates[i].path, path) {
            proof {
                assert(spec_paths(candidates@.take(j as int))[i as int] == path@);
            }
            return true;
        }
        i = i + 1;
    }
    proof {
        let ps = spec_paths(candidates@.take(j as int));
        if ps.contains(path@) {
            let w = choose|w: int| 0 <= w < ps.len() && ps[w] == path@;
            assert(candidates@[w].path@ == path@);
            assert(false);
        }
    }
    false
}

/// Turns the candidate files of one path-or-prefix into the list actually
/// searched — sorted, de-duplicated across compression variants — together
/// with the total size of exactly the files returned.  An empty candidate
/// list is the error [`Error::NoDumpFilesFound`], and nothing else is.
pub fn resolve_dump_files(candidates: &Vec<DumpFileCandidate>) -> (r: Result<
    (Vec<Vec<u8>>, u64),
    Error,
>)
    requires
        spec_total_size(candidates@) <= u64::MAX,
    ensures
        match r {
            Result::Ok(p) => candidates@.len() > 0 && path_seq(p.0@) == spec_resolved(candidates@)
                && p.1 == spec_kept_total(candidates@, spec_resolved(candidates@)),
            Result::Err(e) => candidates@.len() == 0 && (e is NoDumpFilesFound),
        },
{
    let n = candidates.len();
    if n == 0 {
        return Err(Error::NoDumpFilesFound);
    }
    let mut paths: Vec<Vec<u8>> = Vec::new();
    let mut j: usize = 0;
    while j < n
        invariant
            n == candidates@.len(),
            0 <= j <= n,
            paths@.len() == j,
            forall|k: int| 0 <= k < j ==> #[trigger] paths@[k]@ == candidates@[k].path@,
        decreases n - j,
    {
        let p = clone_bytes(&candidates[j].path);
        paths.push(p);
        j = j + 1;
    }
    proof {
        assert(path_seq(paths@) =~= spec_paths(candidates@));
    }
    let sorted = sort_paths(paths);
    let files = dedup_paths(&sorted);
    let ghost resolved = spec_resolved(candidates@);
    // the returned total: each returned file's size, counted once
    let mut total: u64 = 0;
    let mut i: usize = 0;
    proof {
        assert(candidates@.take(0) =~= Seq::<DumpFileCandidate>::empty());
    }
    while i < n
        invariant
            n == candidates@.len(),
            0 <= i <= n,
            spec_total_size(candidates@) <= u64::MAX,
            resolved == spec_resolved(candidates@),
            path_seq(files@) == resolved,
            total == spec_kept_total(candidates@.take(i as int), resolved),
        decreases n - i,
    {
        proof {
            lemma_kept_total_step(candidates@, resolved, i as int);
            lemma_kept_total_bounds(candidates@.take(i + 1), resolved);
            lemma_total_size_take_le(candidates@, i + 1);
        }
        let cand = &candidates[i];
        let returned = path_in_files(&files, &cand.path);
        let seen = path_among(candidates, i, &cand.path);
        if returned && !seen {
            total = total + cand.size;
        }
        i = i + 1;
    }
    proof {
        assert(candidates@.take(n as int) =~= candidates@);
    }
    Ok((files, total))
}

/// When every candidate name shares one stem, exactly one name survives:
/// the lexicographically least of the family, and it is one of the family.
/// Since a plain name sorts before its `.7z` variant and that before its
/// `.bz2` variant, the survivor is the preferred variant present.
pub proof fn lemma_dedup_single_stem(s: Seq<Seq<u8>>)
    requires
        s.len() >= 1,
        forall|i: int| 0 <= i < s.len() ==> spec_stem(#[trigger] s[i]) == spec_stem(s[0]),
    ensures
        spec_dedup(s) =~= seq![s[0]],
    decreases s.len(),
{
    if s.len() > 1 {
        let front = s.drop_last();
        assert(front[0] == s[0]);
        assert forall|i: int| 0 <= i < front.len() implies
            spec_stem(#[trigger] front[i]) == spec_stem(front[0]) by {
            assert(front[i] == s[i]);
        }
        lemma_dedup_single_stem(front);
        assert(spec_dedup(front).last() == s[0]);
        assert(spec_stem(s.last()) == spec_stem(s[0]));
    }
}

/// Adjacent names in the de-duplicated list never share a stem.
pub proof fn lemma_dedup_adjacent_stems_differ(s: Seq<Seq<u8>>)
    ensures
        forall|i: int| 0 <= i < spec_dedup(s).len() - 1 ==>
            spec_stem(#[trigger] spec_dedup(s)[i]) != spec_stem(spec_dedup(s)[i + 1]),
    decreases s.len(),
{
    if s.len() > 1 {
        let front = spec_dedup(s.drop_last());
        lemma_dedup_adjacent_stems_differ(s.drop_last());
        lemma_dedup_len(s.drop_last());
        let d = spec_dedup(s);
        if spec_stem(s.last()) == spec_stem(front.last()) {
        } else {
            assert forall|i: int| 0 <= i < d.len() - 1 implies
                spec_stem(#[trigger] d[i]) != spec_stem(d[i + 1]) by {
                if i < front.len() - 1 {
                    assert(d[i] == front[i] && d[i + 1] == front[i + 1]);
                } else {
                    assert(d[i] == front.last() && d[i + 1] == s.last());
                }
            }
        }
    }
}

/// A name precedes any extension of itself.
proof fn lemma_lex_prefix(a: Seq<u8>, b: Seq<u8>)
    ensures
        lex_le(a, a + b),
    decreases a.len(),
{
    if a.len() == 0 {
    } else {
        assert((a + b).len() > 0);
        assert((a + b)[0] == a[0]);
        lemma_lex_prefix(a.drop_first(), b);
        assert(a.drop_first() + b =~= (a + b).drop_first());
    }
}

/// A shared prefix does not decide the order of two extensions.
proof fn lemma_lex_append_common(p: Seq<u8>, a: Seq<u8>, b: Seq<u8>)
    ensures
        lex_le(p + a, p + b) == lex_le(a, b),
    decreases p.len(),
{
    if p.len() == 0 {
        assert(p + a =~= a);
        assert(p + b =~= b);
    } else {
        assert((p + a)[0] == p[0] && (p + b)[0] == p[0]);
        assert((p + a).drop_first() =~= p.drop_first() + a);
        assert((p + b).drop_first() =~= p.drop_first() + b);
        lemma_lex_append_common(p.drop_first(), a, b);
    }
}

/// The preference order of the compression variants of one stem: the plain
/// name sorts before the `.7z` variant, which sorts before the `.bz2` one.
pub proof fn lemma_variant_order(stem: Seq<u8>)
    ensures
        lex_le(stem, stem + seq![46u8, 55u8, 122u8]),
        lex_le(stem + seq![46u8, 55u8, 122u8], stem + seq![46u8, 98u8, 122u8, 50u8]),
{
    lemma_lex_prefix(stem, seq![46u8, 55u8, 122u8]);
    lemma_lex_append_common(stem, seq![46u8, 55u8, 122u8], seq![46u8, 98u8, 122u8, 50u8]);
    let a = seq![46u8, 55u8, 122u8];
    let b = seq![46u8, 98u8, 122u8, 50u8];
    let a1 = seq![55u8, 122u8];
    let b1 = seq![98u8, 122u8, 50u8];
    assert(a1[0] == 55u8 && b1[0] == 98u8);
    assert(lex_le(a1, b1));
    assert(a.drop_first() =~= a1);
    assert(b.drop_first() =~= b1);
    assert(a[0] == 46u8 && b[0] == 46u8);
    assert(lex_le(a, b));
}

/// A family of candidates that all share one stem resolves to exactly one
/// name: the lexicographically least of the family, one of the family's own.
pub proof fn lemma_resolver_single_stem_family(c: Seq<DumpFileCandidate>)
    requires
        c.len() >= 1,
        forall|i: int| 0 <= i < c.len() ==>
            spec_stem(#[trigger] c[i].path@) == spec_stem(c[0].path@),
    ensures
        spec_resolved(c).len() == 1,
        forall|i: int| 0 <= i < c.len() ==> lex_le(spec_resolved(c)[0], #[trigger] c[i].path@),
        exists|i: int| 0 <= i < c.len() && spec_resolved(c)[0] == c[i].path@,
{
    broadcast use vstd::seq_lib::group_to_multiset_ensures;

    let leq = lex_leq_fn();
    let ps = spec_paths(c);
    let sorted = ps.sort_by(leq);
    lemma_lex_le_total();
    ps.lemma_sort_by_ensures(leq);
    assert(sorted.len() == ps.len()) by {
        assert(sorted.to_multiset().len() == ps.to_multiset().len());
    }
    assert forall|i: int| 0 <= i < sorted.len() implies
        spec_stem(#[trigger] sorted[i]) == spec_stem(sorted[0]) by {
        lemma_sorted_element_in_family(c, sorted, i);
        lemma_sorted_element_in_family(c, sorted, 0);
    }
    lemma_dedup_single_stem(sorted);
    assert(spec_resolved(c) =~= seq![sorted[0]]);
    assert forall|i: int| 0 <= i < c.len() implies
        lex_le(spec_resolved(c)[0], #[trigger] c[i].path@) by {
        assert(ps[i] == c[i].path@);
        assert(ps.contains(c[i].path@));
        assert(ps.to_multiset().contains(c[i].path@));
        assert(sorted.to_multiset().contains(c[i].path@));
        assert(sorted.contains(c[i].path@));
        let j = choose|j: int| 0 <= j < sorted.len() && sorted[j] == c[i].path@;
        if j == 0 {
            lemma_lex_refl(sorted[0]);
        } else {
            assert(leq(sorted[0], sorted[j]));
        }
    }
    lemma_sorted_element_in_family(c, sorted, 0);
    let w = choose|w: int| 0 <= w < c.len() && sorted[0] == #[trigger] c[w].path@;
    assert(0 <= w < c.len() && spec_resolved(c)[0] == c[w].path@);
}

/// Every name of the sorted family is one of the candidates' paths.
proof fn lemma_sorted_element_in_family(
    c: Seq<DumpFileCandidate>,
    sorted: Seq<Seq<u8>>,
    i: int,
)
    requires
        sorted == spec_paths(c).sort_by(lex_leq_fn()),
        0 <= i < sorted.len(),
    ensures
        exists|w: int| 0 <= w < c.len() && sorted[i] == #[trigger] c[w].path@,
        spec_stem(sorted[i]) == spec_stem(c[0].path@) || !(forall|k: int| 0 <= k < c.len() ==>
            spec_stem(#[trigger] c[k].path@) == spec_stem(c[0].path@)),
{
    broadcast use vstd::seq_lib::group_to_multiset_ensures;

    let leq = lex_leq_fn();
    let ps = spec_paths(c);
    lemma_lex_le_total();
    ps.lemma_sort_by_ensures(leq);
    assert(sorted.contains(sorted[i]));
    assert(sorted.to_multiset().contains(sorted[i]));
    assert(ps.to_multiset().contains(sorted[i]));
    assert(ps.contains(sorted[i]));
    let w = choose|w: int| 0 <= w < ps.len() && ps[w] == sorted[i];
    assert(ps[w] == c[w].path@);
    assert(0 <= w < c.len() && sorted[i] == c[w].path@);
    if forall|k: int| 0 <= k < c.len() ==>
        spec_stem(#[trigger] c[k].path@) == spec_stem(c[0].path@) {
        assert(spec_stem(c[w].path@) == spec_stem(c[0].path@));
    }
}

} // verus!
