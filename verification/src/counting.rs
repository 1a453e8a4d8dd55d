//! Occurrence counting over a labeling: how often a symbol appears in a
//! prefix, where its k-th occurrence sits, and how long the leading run is.

use vstd::prelude::*;

verus! {

/// Number of occurrences of `x` among the first `i` elements of `lab`.
pub open spec fn count_upto(lab: Seq<char>, x: char, i: int) -> nat
    decreases i,
{
    if i <= 0 {
        0
    } else {
        count_upto(lab, x, i - 1) + (if lab[i - 1] == x {
            1nat
        } else {
            0nat
        })
    }
}

/// Total number of occurrences of `x` in `lab`.
pub open spec fn count_in(lab: Seq<char>, x: char) -> nat {
    count_upto(lab, x, lab.len() as int)
}

/// Index of the (k+1)-th occurrence of `x` in `lab` at or after index `i`;
/// `lab.len()` when there is none.
pub open spec fn find_occurrence(lab: Seq<char>, x: char, i: int, k: nat) -> int
    decreases lab.len() - i,
{
    if i < 0 || i >= lab.len() {
        lab.len() as int
    } else if lab[i] == x {
        if k == 0 {
            i
        } else {
            find_occurrence(lab, x, i + 1, (k - 1) as nat)
        }
    } else {
        find_occurrence(lab, x, i + 1, k)
    }
}

/// Index of the (k+1)-th occurrence of `x` in `lab`.
pub open spec fn nth_pos(lab: Seq<char>, x: char, k: nat) -> int {
    find_occurrence(lab, x, 0, k)
}

/// Index of the first element at or after `i` that differs from `lab[0]`;
/// `lab.len()` when the run reaches the end.
pub open spec fn run_from(lab: Seq<char>, i: int) -> int
    decreases lab.len() - i,
{
    if i < 0 || i >= lab.len() {
        i
    } else if lab[i] == lab[0] {
        run_from(lab, i + 1)
    } else {
        i
    }
}

/// Length of the maximal leading run: the number of leading elements equal to
/// `lab[0]` (meaningful for a non-empty `lab`; always at least 1 then).
pub open spec fn lead_run(lab: Seq<char>) -> int {
    run_from(lab, 1)
}

/// A prefix holds no more occurrences than it has elements.
pub proof fn lemma_count_upto_le(lab: Seq<char>, x: char, i: int)
    requires
        0 <= i,
    ensures
        count_upto(lab, x, i) <= i,
    decreases i,
{
    if i > 0 {
        lemma_count_upto_le(lab, x, i - 1);
    }
}

/// Counting is monotone in the prefix length, and grows at most one per step.
pub proof fn lemma_count_upto_mono(lab: Seq<char>, x: char, i: int, j: int)
    requires
        0 <= i <= j,
    ensures
        count_upto(lab, x, i) <= count_upto(lab, x, j),
        count_upto(lab, x, j) - count_upto(lab, x, i) <= j - i,
    decreases j,
{
    if j > i {
        lemma_count_upto_mono(lab, x, i, j - 1);
    }
}

/// An occurrence at `i` pushes the total count strictly past the count at `i`.
pub proof fn lemma_count_at_pos(lab: Seq<char>, i: int)
    requires
        0 <= i < lab.len(),
    ensures
        count_upto(lab, lab[i], i) < count_in(lab, lab[i]),
{
    lemma_count_upto_mono(lab, lab[i], i + 1, lab.len() as int);
}

/// Where `find_occurrence` lands: on an occurrence of `x`, with exactly `k`
/// further occurrences between `i` and the landing index.
pub proof fn lemma_find_occurrence(lab: Seq<char>, x: char, i: int, k: nat)
    requires
        0 <= i <= lab.len(),
        k + count_upto(lab, x, i) < count_in(lab, x),
    ensures
        i <= find_occurrence(lab, x, i, k) < lab.len(),
        lab[find_occurrence(lab, x, i, k)] == x,
        count_upto(lab, x, find_occurrence(lab, x, i, k)) == count_upto(lab, x, i) + k,
    decreases lab.len() - i,
{
    lemma_count_upto_mono(lab, x, i, lab.len() as int);
    if i < lab.len() {
        assert(count_upto(lab, x, i + 1) == count_upto(lab, x, i) + (if lab[i] == x {
            1nat
        } else {
            0nat
        }));
        if lab[i] == x {
            if k != 0 {
                lemma_find_occurrence(lab, x, i + 1, (k - 1) as nat);
            }
        } else {
            lemma_find_occurrence(lab, x, i + 1, k);
        }
    }
}

/// Properties of the (k+1)-th occurrence of `x`: it exists, carries `x`,
/// has exactly `k` occurrences before it, and sits at index at least `k`.
pub proof fn lemma_nth_pos(lab: Seq<char>, x: char, k: nat)
    requires
        k < count_in(lab, x),
    ensures
        0 <= nth_pos(lab, x, k) < lab.len(),
        lab[nth_pos(lab, x, k)] == x,
        count_upto(lab, x, nth_pos(lab, x, k)) == k,
        nth_pos(lab, x, k) >= k,
    decreases lab.len(),
{
    lemma_find_occurrence(lab, x, 0, k);
    lemma_count_upto_le(lab, x, nth_pos(lab, x, k));
}

/// Two occurrences of `x` with the same number of occurrences before them
/// are the same position.
pub proof fn lemma_occurrence_unique(lab: Seq<char>, x: char, p: int, q: int)
    requires
        0 <= p < lab.len(),
        0 <= q < lab.len(),
        lab[p] == x,
        lab[q] == x,
        count_upto(lab, x, p) == count_upto(lab, x, q),
    ensures
        p == q,
{
    if p < q {
        assert(count_upto(lab, x, p + 1) == count_upto(lab, x, p) + 1);
        lemma_count_upto_mono(lab, x, p + 1, q);
    }
    if q < p {
        assert(count_upto(lab, x, q + 1) == count_upto(lab, x, q) + 1);
        lemma_count_upto_mono(lab, x, q + 1, p);
    }
}

/// An occurrence of `x` at `p` is the (count_upto(p)+1)-th occurrence.
pub proof fn lemma_pos_of_count(lab: Seq<char>, x: char, p: int)
    requires
        0 <= p < lab.len(),
        lab[p] == x,
    ensures
        count_upto(lab, x, p) < count_in(lab, x),
        nth_pos(lab, x, count_upto(lab, x, p)) == p,
{
    lemma_count_at_pos(lab, p);
    lemma_nth_pos(lab, x, count_upto(lab, x, p));
    lemma_occurrence_unique(lab, x, p, nth_pos(lab, x, count_upto(lab, x, p)));
}

/// A prefix whose occurrence count equals its length consists of `x` only.
pub proof fn lemma_full_count_prefix(lab: Seq<char>, x: char, p: int)
    requires
        0 <= p <= lab.len(),
        count_upto(lab, x, p) == p,
    ensures
        forall|j: int| 0 <= j < p ==> #[trigger] lab[j] == x,
    decreases p,
{
    if p > 0 {
        lemma_count_upto_le(lab, x, p - 1);
        lemma_full_count_prefix(lab, x, p - 1);
    }
}

/// Where the leading-run scan lands: everything from `i` up to the landing
/// index matches `lab[0]`, and the landing index itself does not (or is the
/// end of the labeling).
pub proof fn lemma_run_from(lab: Seq<char>, i: int)
    requires
        0 <= i <= lab.len(),
    ensures
        i <= run_from(lab, i) <= lab.len(),
        forall|j: int| i <= j < run_from(lab, i) ==> #[trigger] lab[j] == lab[0],
        run_from(lab, i) < lab.len() ==> lab[run_from(lab, i)] != lab[0],
    decreases lab.len() - i,
{
    if i < lab.len() && lab[i] == lab[0] {
        lemma_run_from(lab, i + 1);
    }
}

/// The scan lands exactly where the matching prefix stops.
pub proof fn lemma_run_from_exact(lab: Seq<char>, i: int, r: int)
    requires
        0 <= i <= r <= lab.len(),
        forall|j: int| i <= j < r ==> #[trigger] lab[j] == lab[0],
        r < lab.len() ==> lab[r] != lab[0],
    ensures
        run_from(lab, i) == r,
    decreases r - i,
{
    if i < r {
        assert(lab[i] == lab[0]);
        lemma_run_from_exact(lab, i + 1, r);
    }
}

/// A symbol of the labeling that differs from its first element forces the
/// leading run to stop before the end.
pub proof fn lemma_other_symbol_bounds_run(lab: Seq<char>, x: char)
    requires
        count_in(lab, x) >= 1,
        lab.len() >= 1,
        x != lab[0],
    ensures
        lab.len() >= 2,
        1 <= lead_run(lab) < lab.len(),
{
    lemma_nth_pos(lab, x, 0);
    let q = nth_pos(lab, x, 0);
    lemma_run_from(lab, 1);
    if lead_run(lab) == lab.len() {
        assert(lab[q] == lab[0]);
    }
}

} // verus!
