use vstd::prelude::*;
use vstd::set_lib::{lemma_int_range, lemma_len_subset, lemma_subset_equality, set_int_range};

verus! {

/// The entries of `s` read as integers.
pub open spec fn as_ints(s: Seq<usize>) -> Seq<int> {
    Seq::new(s.len(), |i: int| s[i] as int)
}

/// Every entry of `s` is below `n`.
pub open spec fn below(s: Seq<usize>, n: nat) -> bool {
    forall|i: int| 0 <= i < s.len() ==> (#[trigger] s[i]) < n
}

/// Distinct integers taken from `0..n` are at most `n` many; `n` of them
/// are all of `0..n`.
pub proof fn lemma_distinct_ints(p: Seq<int>, n: nat)
    requires
        p.no_duplicates(),
        forall|i: int| 0 <= i < p.len() ==> 0 <= #[trigger] p[i] < n,
    ensures
        p.len() <= n,
        p.len() == n ==> forall|v: int| 0 <= v < n ==> p.contains(v),
{
    let range = set_int_range(0, n as int);
    lemma_int_range(0, n as int);
    p.unique_seq_to_set();
    assert(p.to_set().subset_of(range)) by {
        assert forall|x: int| p.to_set().contains(x) implies range.contains(x) by {
            let i = choose|i: int| 0 <= i < p.len() && p[i] == x;
            assert(0 <= p[i] < n);
        }
    }
    lemma_len_subset(p.to_set(), range);
    if p.len() == n {
        lemma_subset_equality(p.to_set(), range);
        assert forall|v: int| 0 <= v < n implies p.contains(v) by {
            assert(range.contains(v));
            assert(p.to_set().contains(v));
        }
    }
}

/// More than `n` integers taken from `0..n` hold some value twice.
pub proof fn lemma_repeat(p: Seq<int>, n: nat) -> (at: (int, int))
    requires
        p.len() > n,
        forall|i: int| 0 <= i < p.len() ==> 0 <= #[trigger] p[i] < n,
    ensures
        0 <= at.0 < at.1 < p.len(),
        p[at.0] == p[at.1],
{
    if p.no_duplicates() {
        lemma_distinct_ints(p, n);
    }
    let (i, j) = choose|i: int, j: int| 0 <= i < p.len() && 0 <= j < p.len() && i != j
        && p[i] == p[j];
    if i < j {
        (i, j)
    } else {
        (j, i)
    }
}

/// Distinct vertex numbers below `n` are at most `n` many; `n` of them are
/// all the numbers below `n`.
pub proof fn lemma_distinct_bounded(s: Seq<usize>, n: nat)
    requires
        s.no_duplicates(),
        below(s, n),
    ensures
        s.len() <= n,
        s.len() == n ==> forall|v: usize| v < n ==> s.contains(v),
{
    let p = as_ints(s);
    assert(p.no_duplicates());
    lemma_distinct_ints(p, n);
    if s.len() == n {
        assert forall|v: usize| v < n implies s.contains(v) by {
            assert(p.contains(v as int));
            let i = choose|i: int| 0 <= i < p.len() && p[i] == v as int;
            assert(s[i] == v);
        }
    }
}

/// A list of distinct numbers stays one when a number it lacks is appended.
pub proof fn lemma_push_distinct(s: Seq<usize>, x: usize)
    requires
        s.no_duplicates(),
        !s.contains(x),
    ensures
        s.push(x).no_duplicates(),
{
    let t = s.push(x);
    assert forall|i: int, j: int| 0 <= i < t.len() && 0 <= j < t.len() && i != j implies t[i]
        != t[j] by {
        if i < s.len() {
            assert(s.contains(s[i]));
        }
        if j < s.len() {
            assert(s.contains(s[j]));
        }
    }
}

/// What an appended list contains.
pub proof fn lemma_push_contains(s: Seq<usize>, x: usize, y: usize)
    ensures
        s.push(x).contains(y) <==> (s.contains(y) || x == y),
{
    let t = s.push(x);
    if t.contains(y) {
        let i = choose|i: int| 0 <= i < t.len() && t[i] == y;
        if i < s.len() {
            assert(s[i] == y);
        }
    }
    if s.contains(y) {
        let i = choose|i: int| 0 <= i < s.len() && s[i] == y;
        assert(t[i] == y);
    }
    if x == y {
        assert(t[s.len() as int] == y);
    }
}

} // verus!
