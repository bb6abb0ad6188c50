//! Sets of states held as strictly increasing vectors, and how many of them
//! a bounded range of states admits.

use vstd::prelude::*;
use vstd::set_lib::lemma_len_subset;

verus! {

/// Every element is smaller than every later one.
pub open spec fn strictly_increasing(s: Seq<usize>) -> bool {
    forall|i: int, j: int| 0 <= i < j < s.len() ==> (#[trigger] s[i]) < (#[trigger] s[j])
}

/// Every element is below `n`.
pub open spec fn all_below(s: Seq<usize>, n: nat) -> bool {
    forall|i: int| 0 <= i < s.len() ==> (#[trigger] s[i]) < n
}

/// All sets of numbers below `n`, built one number at a time.
pub open spec fn subsets_below(n: nat) -> Set<Set<usize>>
    decreases n,
{
    if n == 0 {
        set![Set::<usize>::empty()]
    } else {
        let smaller = subsets_below((n - 1) as nat);
        smaller.union(smaller.map(|s: Set<usize>| s.insert((n - 1) as usize)))
    }
}

/// `2^n`.
pub open spec fn two_to(n: nat) -> nat
    decreases n,
{
    if n == 0 {
        1
    } else {
        2 * two_to((n - 1) as nat)
    }
}

/// There are finitely many sets of numbers below `n`, at most `2^n`, and
/// every set of such numbers is one of them.
pub proof fn lemma_subsets_below(n: nat)
    requires
        n <= usize::MAX + 1,
    ensures
        subsets_below(n).finite(),
        subsets_below(n).len() <= two_to(n),
        forall|s: Set<usize>| (forall|x: usize| #[trigger] s.contains(x) ==> x < n) ==> subsets_below(n).contains(s),
    decreases n,
{
    if n == 0 {
        assert forall|s: Set<usize>| (forall|x: usize| #[trigger] s.contains(x) ==> x < n) implies subsets_below(n).contains(s) by {
            assert(s =~= Set::<usize>::empty());
        }
    } else {
        let m = (n - 1) as nat;
        lemma_subsets_below(m);
        let smaller = subsets_below(m);
        let f = |s: Set<usize>| s.insert(m as usize);
        let added = smaller.map(f);
        vstd::set_lib::lemma_map_size_bound(smaller, added, f);
        vstd::set_lib::lemma_len_union(smaller, added);
        assert forall|s: Set<usize>| (forall|x: usize| #[trigger] s.contains(x) ==> x < n) implies subsets_below(n).contains(s) by {
            if s.contains(m as usize) {
                let r = s.remove(m as usize);
                assert(forall|x: usize| #[trigger] r.contains(x) ==> x < m);
                assert(smaller.contains(r));
                assert(r.insert(m as usize) =~= s);
                assert(added.contains(f(r)));
            } else {
                assert(forall|x: usize| #[trigger] s.contains(x) ==> x < m);
            }
        }
    }
}

/// Two strictly increasing sequences with the same elements are equal.
pub proof fn lemma_increasing_unique(a: Seq<usize>, b: Seq<usize>)
    requires
        strictly_increasing(a),
        strictly_increasing(b),
        a.to_set() == b.to_set(),
    ensures
        a == b,
    decreases a.len(),
{
    if a.len() == 0 {
        if b.len() > 0 {
            assert(b.to_set().contains(b[0]));
        }
        assert(a =~= b);
    } else {
        assert(a.to_set().contains(a[0]));
        if b.len() == 0 {
            assert(false);
        }
        assert(b.to_set().contains(b[0]));
        let k = choose|k: int| 0 <= k < b.len() && b[k] == a[0];
        let m = choose|m: int| 0 <= m < a.len() && a[m] == b[0];
        assert(a[0] == b[0]) by {
            if a[0] != b[0] {
                if m > 0 {
                    assert(a[0] < a[m]);
                }
                if k > 0 {
                    assert(b[0] < b[k]);
                }
            }
        }
        let a1 = a.drop_first();
        let b1 = b.drop_first();
        assert(a1.to_set() =~= b1.to_set()) by {
            assert forall|x: usize| a1.to_set().contains(x) implies b1.to_set().contains(x) by {
                let i = choose|i: int| 0 <= i < a1.len() && a1[i] == x;
                assert(a[i + 1] == x && a[0] < a[i + 1]);
                assert(b.to_set().contains(x));
                let j = choose|j: int| 0 <= j < b.len() && b[j] == x;
                assert(j != 0);
                assert(b1[j - 1] == x);
            }
            assert forall|x: usize| b1.to_set().contains(x) implies a1.to_set().contains(x) by {
                let i = choose|i: int| 0 <= i < b1.len() && b1[i] == x;
                assert(b[i + 1] == x && b[0] < b[i + 1]);
                assert(a.to_set().contains(x));
                let j = choose|j: int| 0 <= j < a.len() && a[j] == x;
                assert(j != 0);
                assert(a1[j - 1] == x);
            }
        }
        lemma_increasing_unique(a1, b1);
        assert(a =~= b) by {
            assert forall|i: int| 0 <= i < a.len() implies a[i] == b[i] by {
                if i > 0 {
                    assert(a[i] == a1[i - 1]);
                    assert(b[i] == b1[i - 1]);
                }
            }
        }
    }
}

/// Distinct sets of numbers below `n` number at most `2^n`.
pub proof fn lemma_distinct_subsets_bounded(sets: Seq<Set<usize>>, n: nat)
    requires
        n <= usize::MAX + 1,
        sets.no_duplicates(),
        forall|k: int, x: usize| 0 <= k < sets.len() && #[trigger] sets[k].contains(x) ==> x < n,
    ensures
        sets.len() <= two_to(n),
{
    lemma_subsets_below(n);
    assert(sets.to_set().subset_of(subsets_below(n))) by {
        assert forall|s: Set<usize>| sets.to_set().contains(s) implies subsets_below(n).contains(s) by {
            let k = choose|k: int| 0 <= k < sets.len() && sets[k] == s;
            assert(forall|x: usize| #[trigger] s.contains(x) ==> x < n);
        }
    }
    lemma_len_subset(sets.to_set(), subsets_below(n));
    sets.unique_seq_to_set();
}

/// Inserts `x` into the strictly increasing `v` unless it is there.
pub fn insert_sorted(v: &mut Vec<usize>, x: usize)
    requires
        strictly_increasing(old(v)@),
    ensures
        strictly_increasing(final(v)@),
        final(v)@.to_set() == old(v)@.to_set().insert(x),
{
    let mut k: usize = 0;
    while k < v.len() && v[k] < x
        invariant
            k <= v@.len(),
            v@ == old(v)@,
            forall|m: int| 0 <= m < k ==> (#[trigger] v@[m]) < x,
        decreases v@.len() - k,
    {
        k += 1;
    }
    if k < v.len() && v[k] == x {
        assert(v@.to_set() =~= old(v)@.to_set().insert(x)) by {
            assert(v@.to_set().contains(v@[k as int]));
        }
        return;
    }
    let ghost before = v@;
    v.insert(k, x);
    proof {
        let after = v@;
        assert forall|i: int, j: int| 0 <= i < j < after.len() implies (#[trigger] after[i]) < (#[trigger] after[j]) by {
            if j < k {
                assert(after[i] == before[i] && after[j] == before[j]);
            } else if j == k {
                assert(after[i] == before[i]);
            } else if i < k {
                assert(after[i] == before[i] && after[j] == before[j - 1]);
            } else if i == k {
                assert(after[j] == before[j - 1]);
                assert(before[k as int] > x);
            } else {
                assert(after[i] == before[i - 1] && after[j] == before[j - 1]);
            }
        }
        assert(after.to_set() =~= before.to_set().insert(x)) by {
            assert forall|y: usize| after.to_set().contains(y) implies before.to_set().insert(x).contains(y) by {
                let m = choose|m: int| 0 <= m < after.len() && after[m] == y;
                if m < k {
                    assert(before[m] == y);
                } else if m > k {
                    assert(before[m - 1] == y);
                }
            }
            assert forall|y: usize| before.to_set().insert(x).contains(y) implies after.to_set().contains(y) by {
                if y == x {
                    assert(after[k as int] == x);
                } else {
                    let m = choose|m: int| 0 <= m < before.len() && before[m] == y;
                    if m < k {
                        assert(after[m] == y);
                    } else {
                        assert(after[m + 1] == y);
                    }
                }
            }
        }
    }
}

/// Whether two vectors hold the same elements in the same order.
pub fn same_elements(a: &Vec<usize>, b: &Vec<usize>) -> (r: bool)
    ensures
        r == (a@ == b@),
{
    if a.len() != b.len() {
        return false;
    }
    let mut i: usize = 0;
    while i < a.len()
        invariant
            i <= a@.len(),
            a@.len() == b@.len(),
            forall|k: int| 0 <= k < i ==> a@[k] == b@[k],
        decreases a@.len() - i,
    {
        if a[i] != b[i] {
            return false;
        }
        i += 1;
    }
    assert(a@ =~= b@);
    true
}

} // verus!
