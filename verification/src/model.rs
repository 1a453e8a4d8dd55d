//! The mathematical model of the coder: the encode and decode step functions
//! over unbounded integers, the sentinel state, the message-level fold and
//! unfold, and the laws that relate them.

use vstd::prelude::*;
use crate::counting::{count_upto, count_in, nth_pos, lead_run};
use crate::counting::{
    lemma_count_upto_le, lemma_nth_pos, lemma_full_count_prefix,
    lemma_run_from, lemma_other_symbol_bounds_run,
};

verus! {

/// The sentinel state: encoding starts here and decoding stops at or below it.
/// For a labeling of two or more elements it is one less than the length of
/// the leading run of the first symbol.
pub open spec fn spec_initial(lab: Seq<char>) -> nat {
    if lab.len() == 0 {
        0
    } else if lab.len() == 1 {
        1
    } else {
        (lead_run(lab) - 1) as nat
    }
}

/// One-based index of the encode step's occurrence within its block:
/// in `1..=cnt` and congruent to `s + 1` modulo `cnt`.
pub open spec fn spec_symbols_left(cnt: int, s: int) -> int {
    if (s + 1) % cnt == 0 {
        cnt
    } else {
        (s + 1) % cnt
    }
}

/// Number of complete blocks below the encode step's occurrence.
pub open spec fn spec_full_blocks(cnt: int, s: int) -> int {
    (s + 1 - spec_symbols_left(cnt, s)) / cnt
}

/// Encode step: the successor state that prepends symbol `x` to the history
/// held by `s`. Meaningful when `x` occurs in `lab`.
pub open spec fn spec_c(lab: Seq<char>, s: nat, x: char) -> int {
    let cnt = count_in(lab, x) as int;
    spec_full_blocks(cnt, s as int) * lab.len() + nth_pos(
        lab,
        x,
        (spec_symbols_left(cnt, s as int) - 1) as nat,
    )
}

/// Decode step, symbol half: the label at the state's position in its block.
pub open spec fn spec_d_sym(lab: Seq<char>, s: nat) -> char {
    lab[(s as int) % (lab.len() as int)]
}

/// Decode step, predecessor half: how many states below `s` carry the same
/// label as `s`.
pub open spec fn spec_d_pred(lab: Seq<char>, s: nat) -> int {
    let i = (s as int) % (lab.len() as int);
    count_in(lab, lab[i]) * ((s as int) / (lab.len() as int)) + count_upto(lab, lab[i], i)
}

/// Message-level encode: fold the message from its last symbol to its first,
/// starting at the sentinel state.
pub open spec fn spec_encode(lab: Seq<char>, msg: Seq<char>) -> nat
    decreases msg.len(),
{
    if msg.len() == 0 {
        spec_initial(lab)
    } else {
        spec_c(lab, spec_encode(lab, msg.subrange(1, msg.len() as int)), msg[0]) as nat
    }
}

/// Message-level decode: peel decode steps while the state sits strictly
/// above the sentinel and keeps strictly decreasing.
pub open spec fn spec_decode(lab: Seq<char>, s: nat) -> Seq<char>
    decreases s,
{
    if lab.len() == 0 || s <= spec_initial(lab) {
        Seq::<char>::empty()
    } else {
        let p = spec_d_pred(lab, s);
        if 0 <= p < s {
            seq![spec_d_sym(lab, s)] + spec_decode(lab, p as nat)
        } else {
            Seq::<char>::empty()
        }
    }
}

/// `s + 1` splits uniquely as `fb * cnt + sl` with `sl` in `1..=cnt`.
pub proof fn lemma_step_split(cnt: int, s: int)
    requires
        cnt >= 1,
        s >= 0,
    ensures
        1 <= spec_symbols_left(cnt, s) <= cnt,
        spec_full_blocks(cnt, s) >= 0,
        spec_full_blocks(cnt, s) * cnt + spec_symbols_left(cnt, s) == s + 1,
{
    let m = (s + 1) % cnt;
    let q = (s + 1) / cnt;
    vstd::arithmetic::div_mod::lemma_fundamental_div_mod(s + 1, cnt);
    vstd::arithmetic::div_mod::lemma_mod_bound(s + 1, cnt);
    vstd::arithmetic::div_mod::lemma_div_pos_is_pos(s + 1, cnt);
    assert(s + 1 == cnt * q + m);
    if m == 0 {
        assert(q >= 1) by (nonlinear_arith)
            requires
                cnt >= 1,
                q >= 0,
                cnt * q == s + 1,
                s >= 0,
        ;
        assert(s + 1 - cnt == cnt * (q - 1)) by (nonlinear_arith)
            requires
                s + 1 == cnt * q + 0,
        ;
        vstd::arithmetic::div_mod::lemma_div_multiples_vanish(q - 1, cnt);
        assert(spec_full_blocks(cnt, s) == q - 1);
        assert((q - 1) * cnt == cnt * (q - 1)) by (nonlinear_arith);
    } else {
        assert(s + 1 - m == cnt * q) by (nonlinear_arith)
            requires
                s + 1 == cnt * q + m,
        ;
        vstd::arithmetic::div_mod::lemma_div_multiples_vanish(q, cnt);
        assert(spec_full_blocks(cnt, s) == q);
        assert(q * cnt == cnt * q) by (nonlinear_arith);
    }
}

/// Facts shared by the step lemmas: where the encode step lands, split into
/// its block count and its index within the block.
proof fn lemma_step_parts(lab: Seq<char>, s: nat, x: char)
    requires
        count_in(lab, x) >= 1,
    ensures
        ({
            let cnt = count_in(lab, x) as int;
            let sl = spec_symbols_left(cnt, s as int);
            let fb = spec_full_blocks(cnt, s as int);
            let p = nth_pos(lab, x, (sl - 1) as nat);
            &&& 1 <= sl <= cnt
            &&& fb >= 0
            &&& fb * cnt + sl == s + 1
            &&& 0 <= p < lab.len()
            &&& lab[p] == x
            &&& count_upto(lab, x, p) == sl - 1
            &&& p >= sl - 1
            &&& cnt <= lab.len()
            &&& spec_c(lab, s, x) == fb * lab.len() + p
        }),
{
    let cnt = count_in(lab, x) as int;
    let sl = spec_symbols_left(cnt, s as int);
    lemma_step_split(cnt, s as int);
    lemma_nth_pos(lab, x, (sl - 1) as nat);
    lemma_count_upto_le(lab, x, lab.len() as int);
}

/// Step inverse: the decode step recovers exactly the symbol and the state
/// that the encode step consumed.
pub proof fn lemma_step_inverse(lab: Seq<char>, s: nat, x: char)
    requires
        count_in(lab, x) >= 1,
    ensures
        spec_c(lab, s, x) >= 0,
        spec_d_sym(lab, spec_c(lab, s, x) as nat) == x,
        spec_d_pred(lab, spec_c(lab, s, x) as nat) == s,
{
    let cnt = count_in(lab, x) as int;
    let sl = spec_symbols_left(cnt, s as int);
    let fb = spec_full_blocks(cnt, s as int);
    let p = nth_pos(lab, x, (sl - 1) as nat);
    let len = lab.len() as int;
    lemma_step_parts(lab, s, x);
    let n = fb * len + p;
    assert(n >= 0) by (nonlinear_arith)
        requires
            fb >= 0,
            len >= 1,
            p >= 0,
            n == fb * len + p,
    ;
    vstd::arithmetic::div_mod::lemma_fundamental_div_mod_converse(n, len, fb, p);
    assert(n % len == p);
    assert(n / len == fb);
    assert(spec_d_sym(lab, n as nat) == x);
    assert(spec_d_pred(lab, n as nat) == cnt * fb + (sl - 1));
    assert(cnt * fb == fb * cnt) by (nonlinear_arith);
}

/// The encode step never decreases the state.
pub proof fn lemma_step_monotonic(lab: Seq<char>, s: nat, x: char)
    requires
        count_in(lab, x) >= 1,
    ensures
        spec_c(lab, s, x) >= s,
{
    let cnt = count_in(lab, x) as int;
    let sl = spec_symbols_left(cnt, s as int);
    let fb = spec_full_blocks(cnt, s as int);
    let p = nth_pos(lab, x, (sl - 1) as nat);
    let len = lab.len() as int;
    lemma_step_parts(lab, s, x);
    assert(fb * len >= fb * cnt) by (nonlinear_arith)
        requires
            fb >= 0,
            cnt <= len,
    ;
}

/// The encode step strictly increases the state, except exactly where a
/// symbol's information content is nil: when the step would re-encode the
/// labeling's leading symbol at or below the leading run.
pub proof fn lemma_step_strict(lab: Seq<char>, s: nat, x: char)
    requires
        count_in(lab, x) >= 1,
        x != lab[0] || (lab.len() >= 2 && lead_run(lab) < lab.len() && s > spec_initial(lab)),
    ensures
        spec_c(lab, s, x) > s,
{
    let cnt = count_in(lab, x) as int;
    let sl = spec_symbols_left(cnt, s as int);
    let fb = spec_full_blocks(cnt, s as int);
    let p = nth_pos(lab, x, (sl - 1) as nat);
    let len = lab.len() as int;
    lemma_step_parts(lab, s, x);
    lemma_step_monotonic(lab, s, x);
    if spec_c(lab, s, x) == s {
        // Equality forces the occurrence to sit at its own rank and the block
        // scaling to contribute nothing.
        assert(fb * len + p == fb * cnt + sl - 1);
        assert(fb * len >= fb * cnt) by (nonlinear_arith)
            requires
                fb >= 0,
                cnt <= len,
        ;
        assert(p == sl - 1 && fb * len == fb * cnt);
        // The first sl positions of the labeling all carry x.
        lemma_full_count_prefix(lab, x, p);
        assert(lab[0] == x);
        assert(x != lab[0] ==> false);
        // So x is the leading symbol; the leading run covers positions 0..=p.
        lemma_run_from(lab, 1);
        assert(forall|j: int| 0 <= j <= p ==> #[trigger] lab[j] == lab[0]);
        if lead_run(lab) <= p {
            assert(lab[lead_run(lab)] != lab[0]);
            assert(false);
        }
        assert(lead_run(lab) >= sl);
        assert(s >= lead_run(lab));
        if fb == 0 {
            assert(fb * cnt == 0) by (nonlinear_arith)
                requires
                    fb == 0,
            ;
            assert(sl == s + 1);
            assert(false);
        } else {
            // fb >= 1, so equality of the scaled terms forces cnt == len,
            // which makes the whole labeling the leading symbol.
            assert(cnt == len) by (nonlinear_arith)
                requires
                    fb >= 1,
                    cnt <= len,
                    fb * len == fb * cnt,
            ;
            lemma_full_count_prefix(lab, x, len);
            lemma_run_from(lab, 1);
            assert(lead_run(lab) < len);
            assert(lab[lead_run(lab)] != lab[0]);
            assert(false);
        }
    }
}

/// Round trip: decoding an encoded message yields the message back, for every
/// message whose symbols occur in the labeling and whose last symbol is not
/// the labeling's leading symbol. (A trailing run of the leading symbol is
/// absorbed by the sentinel state and would be lost.)
pub proof fn lemma_round_trip(lab: Seq<char>, msg: Seq<char>)
    requires
        crate::all_known(lab, msg),
        msg.len() > 0 ==> msg[msg.len() - 1] != lab[0],
    ensures
        spec_encode(lab, msg) >= spec_initial(lab),
        msg.len() > 0 ==> spec_encode(lab, msg) > spec_initial(lab),
        spec_decode(lab, spec_encode(lab, msg)) == msg,
    decreases msg.len(),
{
    if msg.len() == 0 {
        assert(spec_decode(lab, spec_initial(lab)) =~= msg);
    } else {
        let x = msg[0];
        let tail = msg.subrange(1, msg.len() as int);
        assert(count_in(lab, x) >= 1);
        assert(forall|i: int|
            0 <= i < tail.len() ==> count_in(lab, #[trigger] tail[i]) >= 1) by {
            assert(forall|i: int|
                0 <= i < tail.len() ==> #[trigger] tail[i] == msg[i + 1]);
        }
        if tail.len() > 0 {
            assert(tail[tail.len() - 1] == msg[msg.len() - 1]);
        }
        lemma_round_trip(lab, tail);
        let e1 = spec_encode(lab, tail);
        let st = spec_c(lab, e1, x);
        assert(spec_encode(lab, msg) == st as nat);
        // The last symbol of msg occurs in lab and differs from lab[0], so
        // the labeling is not a single repeated symbol.
        let last = msg[msg.len() - 1];
        lemma_other_symbol_bounds_run(lab, last);
        if tail.len() == 0 {
            assert(x == last);
            lemma_step_strict(lab, e1, x);
        } else {
            lemma_step_strict(lab, e1, x);
        }
        assert(st > e1);
        assert(st > spec_initial(lab));
        lemma_step_inverse(lab, e1, x);
        assert(spec_d_pred(lab, st as nat) == e1);
        assert(spec_d_sym(lab, st as nat) == x);
        assert(spec_decode(lab, st as nat) == seq![x] + spec_decode(lab, e1));
        assert(spec_decode(lab, e1) == tail);
        assert(seq![x] + tail =~= msg);
    }
}

} // verus!
