//! The label spreader: builds a labeling of a requested length whose
//! per-symbol occurrence counts approximate the given relative frequencies,
//! guaranteeing every symbol appears at least once.
//!
//! The greedy rule: each symbol keeps a threshold, the rational `k / w` of
//! its pick counter over its weight. The symbol with the smallest threshold
//! (first in input order on a tie) is appended and its counter grows by one.
//! Thresholds are compared exactly, by cross-multiplication. Once the budget
//! that reserves one slot for every unseen symbol is exhausted, the unseen
//! symbols are appended once each, in input order.

use vstd::prelude::*;
use crate::counting::count_upto;
use crate::errors::AnsError;

verus! {

/// The symbols of a frequency table, in input order.
pub open spec fn syms_of(freqs: Seq<(char, u64)>) -> Seq<char> {
    freqs.map_values(|p: (char, u64)| p.0)
}

/// The weights of a frequency table, in input order.
pub open spec fn weights_of(freqs: Seq<(char, u64)>) -> Seq<u64> {
    freqs.map_values(|p: (char, u64)| p.1)
}

/// Threshold comparison: symbol `i`'s next threshold `ks[i]/ws[i]` is
/// strictly below symbol `j`'s, compared by cross-multiplication.
pub open spec fn thresh_lt(ks: Seq<int>, ws: Seq<u64>, i: int, j: int) -> bool {
    ks[i] * ws[j] < ks[j] * ws[i]
}

/// Index of the first symbol at or after `i` whose threshold is minimal.
pub open spec fn argmin_from(ks: Seq<int>, ws: Seq<u64>, i: int) -> int
    decreases ks.len() - i,
{
    if i + 1 >= ks.len() {
        i
    } else {
        let m = argmin_from(ks, ws, i + 1);
        if thresh_lt(ks, ws, m, i) {
            m
        } else {
            i
        }
    }
}

/// How many of the first `i` symbols do not yet occur in `acc`.
pub open spec fn unused_count(syms: Seq<char>, acc: Seq<char>, i: int) -> nat
    decreases i,
{
    if i <= 0 {
        0
    } else {
        unused_count(syms, acc, i - 1) + (if acc.contains(syms[i - 1]) {
            0nat
        } else {
            1nat
        })
    }
}

/// The first `i` symbols that do not yet occur in `acc`, in input order.
pub open spec fn leftover(syms: Seq<char>, acc: Seq<char>, i: int) -> Seq<char>
    decreases i,
{
    if i <= 0 {
        Seq::<char>::empty()
    } else {
        leftover(syms, acc, i - 1) + (if acc.contains(syms[i - 1]) {
            Seq::<char>::empty()
        } else {
            seq![syms[i - 1]]
        })
    }
}

/// The greedy loop: while the output and the slots reserved for unseen
/// symbols leave room under `length`, append the symbol with the smallest
/// threshold; then append every unseen symbol once.
pub open spec fn spread_loop(
    syms: Seq<char>,
    ws: Seq<u64>,
    ks: Seq<int>,
    acc: Seq<char>,
    length: int,
) -> Seq<char>
    decreases length - acc.len(),
{
    if acc.len() + unused_count(syms, acc, syms.len() as int) < length {
        let b = argmin_from(ks, ws, 0);
        spread_loop(syms, ws, ks.update(b, ks[b] + 1), acc.push(syms[b]), length)
    } else {
        acc + leftover(syms, acc, syms.len() as int)
    }
}

/// The labeling the spreader produces for a frequency table: the greedy loop
/// started with every pick counter at one and an empty output.
pub open spec fn spec_spread(freqs: Seq<(char, u64)>, length: int) -> Seq<char> {
    spread_loop(
        syms_of(freqs),
        weights_of(freqs),
        Seq::new(freqs.len(), |j: int| 1int),
        Seq::<char>::empty(),
        length,
    )
}

/// No symbol occurs twice in the frequency table.
pub open spec fn distinct_syms(freqs: Seq<(char, u64)>) -> bool {
    forall|a: int, b: int|
        0 <= a < b < freqs.len() ==> (#[trigger] freqs[a]).0 != (#[trigger] freqs[b]).0
}

/// Every weight is positive.
pub open spec fn positive_weights(freqs: Seq<(char, u64)>) -> bool {
    forall|j: int| 0 <= j < freqs.len() ==> (#[trigger] freqs[j]).1 >= 1
}

/// The inputs on which the spreader can honour its guarantees.
pub open spec fn spread_ok(freqs: Seq<(char, u64)>, length: int) -> bool {
    &&& positive_weights(freqs)
    &&& distinct_syms(freqs)
    &&& freqs.len() <= length
    &&& (length > 0 ==> freqs.len() > 0)
}

/// Non-strict threshold order is transitive.
proof fn lemma_thresh_le_trans(k1: int, w1: int, k2: int, w2: int, k3: int, w3: int)
    requires
        k1 * w2 <= k2 * w1,
        k2 * w3 <= k3 * w2,
        w1 >= 1,
        w2 >= 1,
        w3 >= 1,
    ensures
        k1 * w3 <= k3 * w1,
{
    assert(k1 * w3 <= k3 * w1) by (nonlinear_arith)
        requires
            k1 * w2 <= k2 * w1,
            k2 * w3 <= k3 * w2,
            w1 >= 1,
            w2 >= 1,
            w3 >= 1,
    ;
}

/// Strict followed by non-strict threshold order is strict.
proof fn lemma_thresh_lt_le_trans(k1: int, w1: int, k2: int, w2: int, k3: int, w3: int)
    requires
        k1 * w2 < k2 * w1,
        k2 * w3 <= k3 * w2,
        w1 >= 1,
        w2 >= 1,
        w3 >= 1,
    ensures
        k1 * w3 < k3 * w1,
{
    assert(k1 * w3 < k3 * w1) by (nonlinear_arith)
        requires
            k1 * w2 < k2 * w1,
            k2 * w3 <= k3 * w2,
            w1 >= 1,
            w2 >= 1,
            w3 >= 1,
    ;
}

/// Non-strict followed by strict threshold order is strict.
proof fn lemma_thresh_le_lt_trans(k1: int, w1: int, k2: int, w2: int, k3: int, w3: int)
    requires
        k1 * w2 <= k2 * w1,
        k2 * w3 < k3 * w2,
        w1 >= 1,
        w2 >= 1,
        w3 >= 1,
    ensures
        k1 * w3 < k3 * w1,
{
    assert(k1 * w3 < k3 * w1) by (nonlinear_arith)
        requires
            k1 * w2 <= k2 * w1,
            k2 * w3 < k3 * w2,
            w1 >= 1,
            w2 >= 1,
            w3 >= 1,
    ;
}

/// Where `argmin_from` lands: strictly better than everything before it,
/// no worse than everything after it.
proof fn lemma_argmin_from(ks: Seq<int>, ws: Seq<u64>, i: int)
    requires
        0 <= i < ks.len(),
        ks.len() == ws.len(),
        forall|j: int| 0 <= j < ws.len() ==> (#[trigger] ws[j]) >= 1,
    ensures
        ({
            let b = argmin_from(ks, ws, i);
            &&& i <= b < ks.len()
            &&& (forall|t: int| i <= t < b ==> thresh_lt(ks, ws, b, t))
            &&& (forall|t: int| b < t < ks.len() ==> !thresh_lt(ks, ws, t, b))
        }),
    decreases ks.len() - i,
{
    if i + 1 < ks.len() {
        lemma_argmin_from(ks, ws, i + 1);
        let m = argmin_from(ks, ws, i + 1);
        let b = argmin_from(ks, ws, i);
        if thresh_lt(ks, ws, m, i) {
            assert(b == m);
        } else {
            assert(b == i);
            assert forall|t: int| i < t < ks.len() implies !thresh_lt(ks, ws, t, i) by {
                if t == m {
                } else if i + 1 <= t < m {
                    // thresh(i) <= thresh(m) and thresh(m) < thresh(t)
                    assert(thresh_lt(ks, ws, m, t));
                    lemma_thresh_le_lt_trans(
                        ks[i],
                        ws[i] as int,
                        ks[m],
                        ws[m] as int,
                        ks[t],
                        ws[t] as int,
                    );
                } else {
                    // thresh(i) <= thresh(m) and thresh(m) <= thresh(t)
                    assert(!thresh_lt(ks, ws, t, m));
                    lemma_thresh_le_trans(
                        ks[i],
                        ws[i] as int,
                        ks[m],
                        ws[m] as int,
                        ks[t],
                        ws[t] as int,
                    );
                }
            }
        }
    }
}

/// Pushing a symbol onto a sequence extends what it contains by that symbol.
proof fn lemma_contains_push(s: Seq<char>, c: char, x: char)
    ensures
        s.push(c).contains(x) <==> (s.contains(x) || x == c),
{
    if s.contains(x) {
        let t = choose|t: int| 0 <= t < s.len() && s[t] == x;
        assert(s.push(c)[t] == x);
    }
    assert(s.push(c)[s.len() as int] == c);
    if s.push(c).contains(x) {
        let t = choose|t: int| 0 <= t < s.push(c).len() && s.push(c)[t] == x;
        if t < s.len() {
            assert(s[t] == x);
        }
    }
}

/// Appending a chosen symbol to the output settles exactly the slots its own
/// occurrences reserved.
proof fn lemma_unused_push(syms: Seq<char>, acc: Seq<char>, c: char, i: int)
    requires
        0 <= i <= syms.len(),
    ensures
        unused_count(syms, acc.push(c), i) + (if acc.contains(c) {
            0nat
        } else {
            count_upto(syms, c, i)
        }) == unused_count(syms, acc, i),
    decreases i,
{
    if i > 0 {
        lemma_unused_push(syms, acc, c, i - 1);
        lemma_contains_push(acc, c, syms[i - 1]);
    }
}

/// A symbol not yet in the output reserves at least one slot.
proof fn lemma_unused_lower(syms: Seq<char>, acc: Seq<char>, i: int, b: int)
    requires
        0 <= b < i <= syms.len(),
        !acc.contains(syms[b]),
    ensures
        unused_count(syms, acc, i) >= 1,
    decreases i,
{
    if b < i - 1 {
        lemma_unused_lower(syms, acc, i - 1, b);
    }
}

/// The leftover phase appends exactly one symbol per reserved slot.
proof fn lemma_leftover_len(syms: Seq<char>, acc: Seq<char>, i: int)
    requires
        0 <= i <= syms.len(),
    ensures
        leftover(syms, acc, i).len() == unused_count(syms, acc, i),
    decreases i,
{
    if i > 0 {
        lemma_leftover_len(syms, acc, i - 1);
    }
}

/// Finds a symbol in the table whose weight is zero.
fn find_zero_weight(freqs: &Vec<(char, u64)>) -> (r: Option<usize>)
    ensures
        match r {
            Some(j) => j < freqs@.len() && freqs@[j as int].1 == 0,
            None => positive_weights(freqs@),
        },
{
    let mut t: usize = 0;
    while t < freqs.len()
        invariant
            t <= freqs@.len(),
            forall|u: int| 0 <= u < t ==> (#[trigger] freqs@[u]).1 >= 1,
        decreases freqs@.len() - t,
    {
        if freqs[t].1 == 0 {
            return Some(t);
        }
        t = t + 1;
    }
    None
}

/// Finds a pair of entries that share a symbol.
fn find_duplicate(freqs: &Vec<(char, u64)>) -> (r: bool)
    ensures
        r == !distinct_syms(freqs@),
{
    let mut a: usize = 0;
    while a < freqs.len()
        invariant
            a <= freqs@.len(),
            forall|u: int, v: int|
                0 <= u < a && u < v < freqs@.len() ==> (#[trigger] freqs@[u]).0 != (
                #[trigger] freqs@[v]).0,
        decreases freqs@.len() - a,
    {
        let mut b: usize = a + 1;
        while b < freqs.len()
            invariant
                a < freqs@.len(),
                a < b <= freqs@.len() || b == a + 1,
                forall|v: int| a < v < b ==> (#[trigger] freqs@[v]).0 != freqs@[a as int].0,
            decreases freqs@.len() - b,
        {
            if freqs[b].0 == freqs[a].0 {
                assert(!distinct_syms(freqs@));
                return true;
            }
            b = b + 1;
        }
        a = a + 1;
    }
    false
}

/// Builds a labeling of exactly `length` symbols whose occurrence counts
/// approximate the given positive integer weights, each symbol occurring at
/// least once. Deterministic: the result is a function of the input alone.
/// Fails with `InvalidFrequency` on a zero weight, and with `Configuration`
/// on a repeated symbol or a length that cannot fit the alphabet.
pub fn spread(freqs: &Vec<(char, u64)>, length: usize) -> (r: Result<Vec<char>, AnsError>)
    ensures
        match r {
            Ok(lab) => spread_ok(freqs@, length as int) && lab@ == spec_spread(
                freqs@,
                length as int,
            ) && lab@.len() == length && (forall|j: int|
                0 <= j < freqs@.len() ==> lab@.contains((#[trigger] freqs@[j]).0)),
            Err(e) => !spread_ok(freqs@, length as int) && e == (if !positive_weights(freqs@) {
                AnsError::InvalidFrequency
            } else {
                AnsError::Configuration
            }),
        },
{
    let ghost syms = syms_of(freqs@);
    let ghost ws = weights_of(freqs@);
    let n = freqs.len();
    if find_zero_weight(freqs).is_some() {
        return Err(AnsError::InvalidFrequency);
    }
    if find_duplicate(freqs) {
        return Err(AnsError::Configuration);
    }
    if n > length || (length > 0 && n == 0) {
        return Err(AnsError::Configuration);
    }

    let mut ks: Vec<u128> = Vec::new();
    let mut used: Vec<bool> = Vec::new();
    let mut t: usize = 0;
    while t < n
        invariant
            t <= n,
            ks@.len() == t,
            used@.len() == t,
            forall|j: int| 0 <= j < t ==> ks@[j] == 1,
            forall|j: int| 0 <= j < t ==> used@[j] == false,
        decreases n - t,
    {
        ks.push(1);
        used.push(false);
        t = t + 1;
    }

    let mut acc: Vec<char> = Vec::new();
    let mut unused: usize = n;
    proof {
        assert(syms.len() == n && ws.len() == n);
        lemma_unused_all_new(syms, n as int);
        assert(ks@.map_values(|k: u128| k as int) =~= Seq::new(n as nat, |j: int| 1int));
    }

    while acc.len() + unused < length
        invariant
            n == freqs@.len(),
            syms == syms_of(freqs@),
            ws == weights_of(freqs@),
            positive_weights(freqs@),
            distinct_syms(freqs@),
            n <= length,
            length > 0 ==> n > 0,
            ks@.len() == n,
            used@.len() == n,
            forall|j: int| 0 <= j < n ==> 1 <= (#[trigger] ks@[j]) <= acc@.len() + 1,
            forall|j: int| 0 <= j < n ==> (#[trigger] used@[j]) == acc@.contains(syms[j]),
            unused == unused_count(syms, acc@, n as int),
            acc@.len() + unused <= length,
            spread_loop(syms, ws, ks@.map_values(|k: u128| k as int), acc@, length as int)
                == spec_spread(freqs@, length as int),
        decreases length - acc@.len(),
    {
        let ghost ksv = ks@.map_values(|k: u128| k as int);
        proof {
            if n == 0 {
                assert(unused_count(syms, acc@, 0) == 0);
                assert(false);
            }
            assert forall|j: int| 0 <= j < n implies (#[trigger] ws[j]) >= 1 by {
                assert(freqs@[j].1 >= 1);
            }
            assert forall|j: int| 0 <= j < n implies (#[trigger] ksv[j]) == ks@[j] by {}
        }
        let mut best: usize = 0;
        let mut j: usize = 1;
        while j < n
            invariant
                n == freqs@.len(),
                syms == syms_of(freqs@),
                ws == weights_of(freqs@),
                ksv == ks@.map_values(|k: u128| k as int),
                ks@.len() == n,
                forall|u: int| 0 <= u < n ==> 1 <= (#[trigger] ks@[u]),
                forall|u: int| 0 <= u < n ==> (#[trigger] ks@[u]) <= acc@.len() + 1,
                acc@.len() < length,
                positive_weights(freqs@),
                best < j <= n,
                forall|u: int| 0 <= u < best ==> thresh_lt(ksv, ws, best as int, u),
                forall|u: int|
                    best < u < j ==> !thresh_lt(ksv, ws, u, best as int),
            decreases n - j,
        {
            proof {
                assert(ks@[j as int] <= length + 1);
                assert(ks@[best as int] <= length + 1);
                assert(ksv[j as int] == ks@[j as int] && ksv[best as int] == ks@[best as int]);
                assert(ws[j as int] == freqs@[j as int].1 && ws[best as int] == freqs@[
                    best as int].1);
                assert(ks@[j as int] * (freqs@[best as int].1 as u128) <= u128::MAX)
                    by (nonlinear_arith)
                    requires
                        ks@[j as int] <= 0x1_0000_0000_0000_0000u128,
                        freqs@[best as int].1 <= 0xffff_ffff_ffff_ffffu64,
                ;
                assert(ks@[best as int] * (freqs@[j as int].1 as u128) <= u128::MAX)
                    by (nonlinear_arith)
                    requires
                        ks@[best as int] <= 0x1_0000_0000_0000_0000u128,
                        freqs@[j as int].1 <= 0xffff_ffff_ffff_ffffu64,
                ;
            }
            let ghost ob = best as int;
            let lhs: u128 = ks[j] * (freqs[best].1 as u128);
            let rhs: u128 = ks[best] * (freqs[j].1 as u128);
            if lhs < rhs {
                best = j;
                proof {
                    assert(thresh_lt(ksv, ws, best as int, ob));
                    assert forall|u: int| 0 <= u < best implies thresh_lt(
                        ksv,
                        ws,
                        best as int,
                        u,
                    ) by {
                        assert(ws[u] == freqs@[u].1 >= 1);
                        assert(ws[ob] == freqs@[ob].1 >= 1);
                        assert(ws[best as int] == freqs@[best as int].1 >= 1);
                        if u == ob {
                        } else if u < ob {
                            assert(thresh_lt(ksv, ws, ob, u));
                            lemma_thresh_le_lt_trans(
                                ksv[best as int],
                                ws[best as int] as int,
                                ksv[ob],
                                ws[ob] as int,
                                ksv[u],
                                ws[u] as int,
                            );
                        } else {
                            assert(!thresh_lt(ksv, ws, u, ob));
                            lemma_thresh_lt_le_trans(
                                ksv[best as int],
                                ws[best as int] as int,
                                ksv[ob],
                                ws[ob] as int,
                                ksv[u],
                                ws[u] as int,
                            );
                        }
                    }
                }
            }
            j = j + 1;
        }
        proof {
            lemma_argmin_from(ksv, ws, 0);
            let am = argmin_from(ksv, ws, 0);
            if am < best {
                assert(thresh_lt(ksv, ws, best as int, am));
                assert(false);
            }
            if best < am {
                assert(thresh_lt(ksv, ws, am, best as int));
                assert(false);
            }
            assert(am == best);
        }
        let ghost old_acc = acc@;
        let ghost old_ks = ks@;
        let chosen = freqs[best].0;
        proof {
            assert(chosen == syms[best as int]);
        }
        acc.push(chosen);
        if !used[best] {
            proof {
                lemma_unused_lower(syms, old_acc, n as int, best as int);
            }
            used[best] = true;
            unused = unused - 1;
        }
        let k_old: u128 = ks[best];
        proof {
            assert(k_old <= length);
        }
        ks[best] = k_old + 1;
        proof {
            // contains after the push
            assert forall|u: int| 0 <= u < n implies (#[trigger] used@[u]) == acc@.contains(
                syms[u],
            ) by {
                lemma_contains_push(old_acc, chosen, syms[u]);
                if u != best {
                    if syms[u] == chosen {
                        assert(freqs@[u].0 == freqs@[best as int].0);
                        assert(false);
                    }
                }
            }
            // the unused counter
            lemma_unused_push(syms, old_acc, chosen, n as int);
            if old_acc.contains(chosen) {
                assert(unused == unused_count(syms, acc@, n as int));
            } else {
                lemma_count_upto_one(freqs@, best as int);
                assert(unused == unused_count(syms, acc@, n as int));
            }
            // the spec loop takes the same step
            let ksv2 = ks@.map_values(|k: u128| k as int);
            assert(ksv2 =~= ksv.update(best as int, ksv[best as int] + 1));
            assert(acc@ =~= old_acc.push(syms[best as int]));
            assert(spread_loop(syms, ws, ksv, old_acc, length as int) == spread_loop(
                syms,
                ws,
                ksv2,
                acc@,
                length as int,
            ));
        }
    }

    // Append every symbol that the greedy loop never chose, in input order.
    let ghost base = acc@;
    proof {
        assert(spread_loop(syms, ws, ks@.map_values(|k: u128| k as int), base, length as int)
            == base + leftover(syms, base, n as int));
        lemma_leftover_len(syms, base, n as int);
        assert(leftover(syms, base, 0) =~= Seq::<char>::empty());
        assert(base + leftover(syms, base, 0) =~= base);
    }
    let mut j: usize = 0;
    while j < n
        invariant
            n == freqs@.len(),
            syms == syms_of(freqs@),
            j <= n,
            used@.len() == n,
            forall|u: int| 0 <= u < n ==> (#[trigger] used@[u]) == base.contains(syms[u]),
            acc@ == base + leftover(syms, base, j as int),
            forall|u: int| 0 <= u < j ==> acc@.contains(#[trigger] syms[u]),
        decreases n - j,
    {
        let ghost pre = acc@;
        if !used[j] {
            acc.push(freqs[j].0);
            proof {
                assert(acc@ =~= pre.push(syms[j as int]));
                assert(acc@ =~= base + leftover(syms, base, j + 1));
                assert(acc@[acc@.len() - 1] == syms[j as int]);
                assert forall|u: int| 0 <= u < j + 1 implies acc@.contains(
                    #[trigger] syms[u],
                ) by {
                    if u < j {
                        lemma_contains_push(pre, syms[j as int], syms[u]);
                    } else {
                        assert(acc@.contains(syms[j as int]));
                    }
                }
            }
        } else {
            proof {
                assert(base.contains(syms[j as int]));
                let t0 = choose|t0: int| 0 <= t0 < base.len() && base[t0] == syms[j as int];
                assert(acc@[t0] == syms[j as int]);
                assert(acc@.contains(syms[j as int]));
                assert(leftover(syms, base, j + 1) =~= leftover(syms, base, j as int));
                assert(acc@ =~= base + leftover(syms, base, j + 1));
            }
        }
        j = j + 1;
    }
    proof {
        assert(acc@ == spec_spread(freqs@, length as int));
        assert(acc@.len() == length);
        assert forall|u: int| 0 <= u < freqs@.len() implies acc@.contains(
            (#[trigger] freqs@[u]).0,
        ) by {
            assert(syms[u] == freqs@[u].0);
        }
    }
    Ok(acc)
}

/// A fresh output reserves one slot per symbol.
proof fn lemma_unused_all_new(syms: Seq<char>, i: int)
    requires
        0 <= i <= syms.len(),
    ensures
        unused_count(syms, Seq::<char>::empty(), i) == i,
    decreases i,
{
    if i > 0 {
        lemma_unused_all_new(syms, i - 1);
    }
}

/// In a duplicate-free table a symbol occurs exactly once among the symbols.
proof fn lemma_count_upto_one(freqs: Seq<(char, u64)>, b: int)
    requires
        distinct_syms(freqs),
        0 <= b < freqs.len(),
    ensures
        count_upto(syms_of(freqs), freqs[b].0, syms_of(freqs).len() as int) == 1,
{
    lemma_count_distinct(freqs, freqs[b].0, b, freqs.len() as int);
}

/// Counting a symbol of a duplicate-free table: one occurrence at its own
/// index, none elsewhere.
proof fn lemma_count_distinct(freqs: Seq<(char, u64)>, x: char, b: int, i: int)
    requires
        distinct_syms(freqs),
        0 <= b < freqs.len(),
        0 <= i <= freqs.len(),
        freqs[b].0 == x,
    ensures
        count_upto(syms_of(freqs), x, i) == (if b < i {
            1nat
        } else {
            0nat
        }),
    decreases i,
{
    if i > 0 {
        lemma_count_distinct(freqs, x, b, i - 1);
        assert(syms_of(freqs)[i - 1] == freqs[i - 1].0);
    }
}

} // verus!
