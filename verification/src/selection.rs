//! Stable split of a sequence by a parallel sequence of flags.
use vstd::prelude::*;
use vstd::multiset::Multiset;

verus! {

/// The elements of `s` whose flag equals `b`, in order.
pub open spec fn select(s: Seq<usize>, flags: Seq<bool>, b: bool) -> Seq<usize>
    decreases s.len(),
{
    if s.len() == 0 {
        Seq::empty()
    } else {
        let rest = select(s.drop_last(), flags.take(s.len() - 1), b);
        if flags[s.len() - 1] == b { rest.push(s.last()) } else { rest }
    }
}

/// Splitting a sequence by its flags loses and adds nothing.
pub proof fn lemma_select_partition(s: Seq<usize>, flags: Seq<bool>)
    requires
        flags.len() == s.len(),
    ensures
        select(s, flags, true).to_multiset().add(select(s, flags, false).to_multiset())
            == s.to_multiset(),
        select(s, flags, true).len() + select(s, flags, false).len() == s.len(),
    decreases s.len(),
{
    broadcast use vstd::seq_lib::group_to_multiset_ensures;
    broadcast use vstd::multiset::group_multiset_axioms;

    if s.len() == 0 {
        assert(select(s, flags, true).to_multiset() =~= Multiset::empty());
        assert(select(s, flags, false).to_multiset() =~= Multiset::empty());
        assert(s.to_multiset() =~= Multiset::empty());
    } else {
        let t = s.drop_last();
        let f = flags.take(s.len() - 1);
        lemma_select_partition(t, f);
        assert(s =~= t.push(s.last()));
        assert(select(s, flags, true).to_multiset().add(select(s, flags, false).to_multiset())
            =~= s.to_multiset());
    }
}

/// Every element of a selection comes from a position of the selected
/// sequence whose flag is the one selected.
pub proof fn lemma_select_contained(s: Seq<usize>, flags: Seq<bool>, b: bool)
    requires
        flags.len() == s.len(),
    ensures
        forall|k: int| 0 <= k < select(s, flags, b).len() ==> exists|j: int|
            0 <= j < s.len() && s[j] == #[trigger] select(s, flags, b)[k] && flags[j] == b,
    decreases s.len(),
{
    if s.len() > 0 {
        let f = flags.take(s.len() - 1);
        lemma_select_contained(s.drop_last(), f, b);
        let rest = select(s.drop_last(), f, b);
        assert forall|k: int| 0 <= k < select(s, flags, b).len() implies exists|j: int|
            0 <= j < s.len() && s[j] == #[trigger] select(s, flags, b)[k] && flags[j] == b by {
            if k < rest.len() {
                let j = choose|j: int| 0 <= j < s.drop_last().len() && s.drop_last()[j] == rest[k] && f[j] == b;
                assert(s[j] == rest[k] && flags[j] == b);
                assert(select(s, flags, b)[k] == rest[k]);
                assert(0 <= j < s.len() && s[j] == select(s, flags, b)[k] && flags[j] == b);
            } else {
                let j = s.len() - 1;
                assert(s[j] == s.last());
                assert(select(s, flags, b) == rest.push(s.last()));
                assert(0 <= j < s.len() && s[j] == select(s, flags, b)[k] && flags[j] == b);
            }
        }
    } else {
        assert(select(s, flags, b).len() == 0);
    }
}

/// `idx` lists, in increasing order, exactly the positions of `s` whose flag
/// is `b`, and `r` holds the elements of `s` at those positions: `r` is the
/// subsequence of `s` flagged `b`.
pub open spec fn ordered_selection(s: Seq<usize>, flags: Seq<bool>, b: bool, r: Seq<usize>, idx: Seq<int>) -> bool {
    &&& idx.len() == r.len()
    &&& forall|m: int| 0 <= m < idx.len() ==>
        0 <= #[trigger] idx[m] < s.len() && s[idx[m]] == r[m] && flags[idx[m]] == b
    &&& forall|m1: int, m2: int| 0 <= m1 < m2 < idx.len() ==> #[trigger] idx[m1] < #[trigger] idx[m2]
    &&& forall|j: int| 0 <= j < s.len() && flags[j] == b ==>
        exists|m: int| 0 <= m < idx.len() && #[trigger] idx[m] == j
}

/// The selection keeps the order of the sequence: it is the subsequence of
/// `s` made of the elements at the positions flagged `b`, each taken once,
/// in increasing order of position. The positions are returned.
pub proof fn lemma_select_ordered(s: Seq<usize>, flags: Seq<bool>, b: bool) -> (idx: Seq<int>)
    requires
        flags.len() == s.len(),
    ensures
        ordered_selection(s, flags, b, select(s, flags, b), idx),
    decreases s.len(),
{
    if s.len() == 0 {
        Seq::empty()
    } else {
        let n = s.len() - 1;
        let t = s.drop_last();
        let f = flags.take(n);
        let idx0 = lemma_select_ordered(t, f, b);
        let rest = select(t, f, b);
        if flags[n] == b {
            let idx = idx0.push(n);
            let r = select(s, flags, b);
            assert(r == rest.push(s.last()));
            assert forall|m: int| 0 <= m < idx.len() implies
                0 <= #[trigger] idx[m] < s.len() && s[idx[m]] == r[m] && flags[idx[m]] == b by {
                if m < idx0.len() {
                    assert(idx[m] == idx0[m]);
                    assert(t[idx0[m]] == rest[m]);
                    assert(f[idx0[m]] == b);
                } else {
                    assert(idx[m] == n);
                }
            }
            assert forall|m1: int, m2: int| 0 <= m1 < m2 < idx.len() implies #[trigger] idx[m1] < #[trigger] idx[m2] by {
                assert(idx[m1] == idx0[m1]);
                if m2 < idx0.len() {
                    assert(idx[m2] == idx0[m2]);
                } else {
                    assert(idx[m2] == n);
                }
            }
            assert forall|j: int| 0 <= j < s.len() && flags[j] == b implies
                exists|m: int| 0 <= m < idx.len() && #[trigger] idx[m] == j by {
                if j < n {
                    assert(f[j] == b);
                    let m = choose|m: int| 0 <= m < idx0.len() && #[trigger] idx0[m] == j;
                    assert(idx[m] == j);
                } else {
                    assert(idx[idx0.len() as int] == j);
                }
            }
            idx
        } else {
            let r = select(s, flags, b);
            assert(r == rest);
            assert forall|m: int| 0 <= m < idx0.len() implies
                0 <= #[trigger] idx0[m] < s.len() && s[idx0[m]] == r[m] && flags[idx0[m]] == b by {
                assert(t[idx0[m]] == rest[m]);
                assert(f[idx0[m]] == b);
            }
            assert forall|j: int| 0 <= j < s.len() && flags[j] == b implies
                exists|m: int| 0 <= m < idx0.len() && #[trigger] idx0[m] == j by {
                assert(j < n);
                assert(f[j] == b);
            }
            idx0
        }
    }
}

/// Two elements flagged `b` keep their relative order in the selection: the
/// one at the earlier position comes first.
pub proof fn lemma_select_keeps_order(s: Seq<usize>, flags: Seq<bool>, b: bool, j1: int, j2: int)
    requires
        flags.len() == s.len(),
        0 <= j1 < j2 < s.len(),
        flags[j1] == b,
        flags[j2] == b,
    ensures
        exists|m1: int, m2: int| 0 <= m1 < m2 < select(s, flags, b).len()
            && #[trigger] select(s, flags, b)[m1] == s[j1] && #[trigger] select(s, flags, b)[m2] == s[j2],
{
    let r = select(s, flags, b);
    let idx = lemma_select_ordered(s, flags, b);
    let m1 = choose|m: int| 0 <= m < idx.len() && #[trigger] idx[m] == j1;
    let m2 = choose|m: int| 0 <= m < idx.len() && #[trigger] idx[m] == j2;
    assert(s[idx[m1]] == r[m1]);
    assert(s[idx[m2]] == r[m2]);
    if m2 <= m1 {
        if m2 < m1 {
            assert(idx[m2] < idx[m1]);
        }
    }
    assert(m1 < m2);
    assert(0 <= m1 < m2 < r.len() && r[m1] == s[j1] && r[m2] == s[j2]);
}

/// An element at a position flagged `b` is selected; in a sequence that
/// repeats no element, an element at a position flagged otherwise is not.
pub proof fn lemma_select_membership(s: Seq<usize>, flags: Seq<bool>, b: bool, j: int)
    requires
        flags.len() == s.len(),
        0 <= j < s.len(),
    ensures
        flags[j] == b ==> select(s, flags, b).contains(s[j]),
        s.no_duplicates() ==> (select(s, flags, b).contains(s[j]) <==> flags[j] == b),
{
    let r = select(s, flags, b);
    let idx = lemma_select_ordered(s, flags, b);
    if flags[j] == b {
        let m = choose|m: int| 0 <= m < idx.len() && #[trigger] idx[m] == j;
        assert(r[m] == s[j]);
    } else if s.no_duplicates() && r.contains(s[j]) {
        let m = choose|m: int| 0 <= m < r.len() && r[m] == s[j];
        assert(s[idx[m]] == r[m]);
        assert(idx[m] != j);
    }
}

/// `0, 1, ..., n - 1`.
pub open spec fn index_range(n: nat) -> Seq<usize> {
    Seq::new(n, |i: int| i as usize)
}

/// All entries of `s` are positions in a list of length `n`.
pub open spec fn all_below(s: Seq<usize>, n: nat) -> bool {
    forall|k: int| 0 <= k < s.len() ==> #[trigger] s[k] < n
}

/// A sequence with the elements of `0..n` is a permutation of it: it has `n`
/// entries, all below `n`, none repeated, each of `0..n` once.
pub proof fn lemma_permutation_of_range(contents: Seq<usize>, n: nat)
    requires
        n <= usize::MAX,
        contents.to_multiset() == index_range(n).to_multiset(),
    ensures
        contents.len() == n,
        all_below(contents, n),
        contents.no_duplicates(),
        forall|i: int| 0 <= i < n ==> #[trigger] contents.to_multiset().count(i as usize) == 1,
{
    broadcast use vstd::seq_lib::group_to_multiset_ensures;
    broadcast use vstd::multiset::group_multiset_axioms;

    let r = index_range(n);
    assert forall|a: int, b: int| 0 <= a < r.len() && 0 <= b < r.len() && a != b implies r[a] != r[b] by {
        assert(r[a] == a && r[b] == b);
    }
    assert(r.no_duplicates());
    r.lemma_multiset_has_no_duplicates();
    assert(contents.len() == r.len()) by {
        assert(contents.to_multiset().len() == r.to_multiset().len());
    }
    assert forall|k: int| 0 <= k < contents.len() implies #[trigger] contents[k] < n by {
        assert(contents.contains(contents[k]));
        assert(contents.to_multiset().count(contents[k]) > 0);
        assert(r.to_multiset().count(contents[k]) > 0);
        assert(r.contains(contents[k]));
        let j = choose|j: int| 0 <= j < r.len() && r[j] == contents[k];
        assert(r[j] == j);
    }
    assert forall|i: int| 0 <= i < n implies #[trigger] contents.to_multiset().count(i as usize) == 1 by {
        assert(r[i] == i as usize);
        assert(r.contains(i as usize));
    }
    contents.lemma_multiset_has_no_duplicates_conv();
}

} // verus!
