//! The coder: a labeling, its derived frequency index, and the encode and
//! decode operations over an arbitrary-precision state.

use vstd::prelude::*;
use vstd::string::StrSliceExecFns;
use num_bigint::BigUint;
use crate::bignum::{
    big_value, big_from_usize, big_clone, big_add_usize, big_sub_usize, big_mul_usize,
    big_div_usize, big_mod_usize, big_gt,
};
use crate::counting::{
    count_upto, count_in, nth_pos, lemma_count_upto_le, lemma_count_at_pos,
    lemma_pos_of_count, lemma_run_from_exact,
};
use crate::model::{
    spec_initial, spec_symbols_left, spec_full_blocks, spec_c, spec_d_sym, spec_d_pred,
    spec_encode, spec_decode, lemma_step_split,
};
use crate::errors::AnsError;
use crate::all_known;

verus! {

/// Turns decoded symbols into a `String`.
/// Relies on `String`'s `FromIterator<char>` impl: collecting chars yields a
/// string of exactly those chars in order.
#[verifier::external_body]
fn chars_to_string(v: &Vec<char>) -> (r: String)
    ensures
        r@ == v@,
{
    v.iter().collect()
}

/// True iff the vector holds `x`.
fn vec_contains(v: &Vec<char>, x: char) -> (r: bool)
    ensures
        r == v@.contains(x),
{
    let mut j: usize = 0;
    while j < v.len()
        invariant
            j <= v@.len(),
            forall|t: int| 0 <= t < j ==> v@[t] != x,
        decreases v@.len() - j,
    {
        if v[j] == x {
            return true;
        }
        j += 1;
    }
    false
}

/// Occurrences of `x` among the first `upto` elements of `lab`.
fn count_occurrences(lab: &Vec<char>, x: char, upto: usize) -> (r: usize)
    requires
        upto <= lab@.len(),
    ensures
        r as nat == count_upto(lab@, x, upto as int),
{
    let mut t: usize = 0;
    let mut c: usize = 0;
    while t < upto
        invariant
            t <= upto <= lab@.len(),
            c as nat == count_upto(lab@, x, t as int),
            c <= t,
        decreases upto - t,
    {
        if lab[t] == x {
            c += 1;
        }
        t += 1;
    }
    c
}

/// An entropy coder fixed by its labeling: one block of symbols whose
/// occurrence counts approximate the symbol frequencies, with the tables
/// derived from it once at construction.
pub struct Ans {
    labeling: Vec<char>,
    block_size: usize,
    alphabet: Vec<char>,
    counts: Vec<usize>,
    positions: Vec<Vec<usize>>,
    ranks: Vec<usize>,
    initial_state: BigUint,
}

impl Ans {
    /// The labeling this coder was built from.
    pub closed spec fn labeling(&self) -> Seq<char> {
        self.labeling@
    }

    /// Well-formedness: every derived table agrees with the labeling.
    pub closed spec fn wf(&self) -> bool {
        &&& self.block_size == self.labeling@.len()
        &&& self.ranks@.len() == self.labeling@.len()
        &&& (forall|i: int|
            0 <= i < self.labeling@.len() ==> self.ranks@[i] == count_upto(
                self.labeling@,
                self.labeling@[i],
                i,
            ))
        &&& self.counts@.len() == self.alphabet@.len()
        &&& self.positions@.len() == self.alphabet@.len()
        &&& (forall|j: int|
            0 <= j < self.alphabet@.len() ==> self.counts@[j] == count_in(
                self.labeling@,
                #[trigger] self.alphabet@[j],
            ))
        &&& (forall|j: int|
            0 <= j < self.alphabet@.len() ==> (#[trigger] self.positions@[j])@.len() == count_in(
                self.labeling@,
                self.alphabet@[j],
            ))
        &&& (forall|j: int, k: int|
            0 <= j < self.alphabet@.len() && 0 <= k < self.positions@[j]@.len()
                ==> (#[trigger] self.positions@[j]@[k]) == nth_pos(
                self.labeling@,
                self.alphabet@[j],
                k as nat,
            ))
        &&& (forall|x: char| count_in(self.labeling@, x) >= 1 <==> self.alphabet@.contains(x))
        &&& big_value(self.initial_state) == spec_initial(self.labeling@)
    }

    /// Index of `x` in the alphabet; `None` exactly when `x` does not occur
    /// in the labeling.
    fn find_symbol(&self, x: char) -> (r: Option<usize>)
        requires
            self.wf(),
        ensures
            match r {
                Some(j) => j < self.alphabet@.len() && self.alphabet@[j as int] == x
                    && count_in(self.labeling@, x) >= 1,
                None => count_in(self.labeling@, x) == 0,
            },
    {
        let mut j: usize = 0;
        while j < self.alphabet.len()
            invariant
                self.wf(),
                j <= self.alphabet@.len(),
                forall|t: int| 0 <= t < j ==> self.alphabet@[t] != x,
            decreases self.alphabet@.len() - j,
        {
            if self.alphabet[j] == x {
                proof {
                    assert(self.alphabet@.contains(x));
                }
                return Some(j);
            }
            j += 1;
        }
        proof {
            if count_in(self.labeling@, x) >= 1 {
                assert(self.alphabet@.contains(x));
                let t = choose|t: int|
                    0 <= t < self.alphabet@.len() && self.alphabet@[t] == x;
                assert(false);
            }
        }
        None
    }

    /// Builds a coder from a labeling: derives the per-symbol counts, the
    /// per-position ranks, the per-symbol occurrence positions and the
    /// sentinel state, all fixed thereafter.
    pub fn new(labeling: Vec<char>) -> (r: Ans)
        ensures
            r.wf(),
            r.labeling() == labeling@,
    {
        let block_size = labeling.len();

        let mut ranks: Vec<usize> = Vec::new();
        let mut i: usize = 0;
        while i < block_size
            invariant
                block_size == labeling@.len(),
                i <= block_size,
                ranks@.len() == i,
                forall|t: int|
                    0 <= t < i ==> ranks@[t] == count_upto(labeling@, labeling@[t], t),
            decreases block_size - i,
        {
            let c = count_occurrences(&labeling, labeling[i], i);
            ranks.push(c);
            i = i + 1;
        }

        let mut alphabet: Vec<char> = Vec::new();
        let mut i: usize = 0;
        while i < block_size
            invariant
                block_size == labeling@.len(),
                i <= block_size,
                forall|x: char|
                    count_upto(labeling@, x, i as int) >= 1 <==> alphabet@.contains(x),
            decreases block_size - i,
        {
            let ch = labeling[i];
            let ghost old_alpha = alphabet@;
            if !vec_contains(&alphabet, ch) {
                alphabet.push(ch);
                proof {
                    assert forall|x: char|
                        count_upto(labeling@, x, i + 1) >= 1 <==> alphabet@.contains(x) by {
                        if x == ch {
                            assert(alphabet@[old_alpha.len() as int] == ch);
                            assert(alphabet@.contains(ch));
                        } else {
                            if old_alpha.contains(x) {
                                let t = choose|t: int|
                                    0 <= t < old_alpha.len() && old_alpha[t] == x;
                                assert(alphabet@[t] == x);
                                assert(alphabet@.contains(x));
                            }
                            if alphabet@.contains(x) {
                                let t = choose|t: int|
                                    0 <= t < alphabet@.len() && alphabet@[t] == x;
                                assert(old_alpha[t] == x);
                                assert(old_alpha.contains(x));
                            }
                        }
                    }
                }
            } else {
                proof {
                    assert(alphabet@.contains(ch));
                    assert forall|x: char|
                        count_upto(labeling@, x, i + 1) >= 1 <==> alphabet@.contains(x) by {
                    }
                }
            }
            i = i + 1;
        }

        let mut counts: Vec<usize> = Vec::new();
        let mut positions: Vec<Vec<usize>> = Vec::new();
        let mut j: usize = 0;
        while j < alphabet.len()
            invariant
                block_size == labeling@.len(),
                j <= alphabet@.len(),
                counts@.len() == j,
                positions@.len() == j,
                forall|t: int|
                    0 <= t < j ==> counts@[t] == count_in(labeling@, #[trigger] alphabet@[t]),
                forall|t: int|
                    0 <= t < j ==> (#[trigger] positions@[t])@.len() == count_in(
                        labeling@,
                        alphabet@[t],
                    ),
                forall|t: int, k: int|
                    0 <= t < j && 0 <= k < positions@[t]@.len()
                        ==> (#[trigger] positions@[t]@[k]) == nth_pos(
                        labeling@,
                        alphabet@[t],
                        k as nat,
                    ),
            decreases alphabet@.len() - j,
        {
            let x = alphabet[j];
            let cnt = count_occurrences(&labeling, x, block_size);
            let mut pos: Vec<usize> = Vec::new();
            let mut t: usize = 0;
            while t < block_size
                invariant
                    block_size == labeling@.len(),
                    t <= block_size,
                    pos@.len() == count_upto(labeling@, x, t as int),
                    forall|k: int|
                        0 <= k < pos@.len() ==> pos@[k] == nth_pos(labeling@, x, k as nat),
                decreases block_size - t,
            {
                if labeling[t] == x {
                    proof {
                        lemma_pos_of_count(labeling@, x, t as int);
                        lemma_count_upto_le(labeling@, x, t as int);
                    }
                    pos.push(t);
                }
                t = t + 1;
            }
            counts.push(cnt);
            positions.push(pos);
            j = j + 1;
        }

        let init_small: usize;
        if block_size == 0 {
            init_small = 0;
        } else if block_size == 1 {
            init_small = 1;
        } else {
            let mut i: usize = 1;
            while i < block_size && labeling[i] == labeling[0]
                invariant
                    block_size == labeling@.len(),
                    block_size >= 2,
                    1 <= i <= block_size,
                    forall|t: int| 1 <= t < i ==> #[trigger] labeling@[t] == labeling@[0],
                decreases block_size - i,
            {
                i = i + 1;
            }
            proof {
                lemma_run_from_exact(labeling@, 1, i as int);
            }
            init_small = i - 1;
        }
        let initial_state = big_from_usize(init_small);

        Ans { labeling, block_size, alphabet, counts, positions, ranks, initial_state }
    }

    /// Encode step: returns the `state + 1`-th state labeled `symbol`.
    fn c(&self, state: BigUint, symbol: char) -> (r: BigUint)
        requires
            self.wf(),
            count_in(self.labeling(), symbol) >= 1,
        ensures
            big_value(r) == spec_c(self.labeling(), big_value(state), symbol),
    {
        let ghost s = big_value(state);
        let ghost lab = self.labeling@;
        let j = self.find_symbol(symbol).unwrap();
        let cnt = self.counts[j];
        let ghost sl = spec_symbols_left(cnt as int, s as int);
        let ghost fb = spec_full_blocks(cnt as int, s as int);
        proof {
            lemma_step_split(cnt as int, s as int);
            if sl < cnt {
                vstd::arithmetic::div_mod::lemma_fundamental_div_mod_converse(
                    s as int + 1,
                    cnt as int,
                    fb,
                    sl,
                );
            } else {
                assert(fb * cnt + cnt == (fb + 1) * cnt) by (nonlinear_arith);
                vstd::arithmetic::div_mod::lemma_fundamental_div_mod_converse(
                    s as int + 1,
                    cnt as int,
                    fb + 1,
                    0,
                );
            }
        }
        let sp1 = big_add_usize(&state, 1);
        let mut full_blocks = big_div_usize(&sp1, cnt);
        let mut symbols_left = big_mod_usize(&sp1, cnt);
        if symbols_left == 0 {
            full_blocks = big_sub_usize(&full_blocks, 1);
            symbols_left = cnt;
        }
        proof {
            assert(big_value(full_blocks) == fb);
            assert(symbols_left as int == sl);
            lemma_count_upto_le(lab, symbol, lab.len() as int);
        }
        let index_within_block = self.positions[j][symbols_left - 1];
        let scaled = big_mul_usize(&full_blocks, self.block_size);
        big_add_usize(&scaled, index_within_block)
    }

    /// Decode step: the symbol that labels `state`, and the count of states
    /// below `state` that carry the same symbol.
    fn d(&self, state: &BigUint) -> (r: (char, BigUint))
        requires
            self.wf(),
            self.labeling().len() >= 1,
        ensures
            r.0 == spec_d_sym(self.labeling(), big_value(*state)),
            big_value(r.1) == spec_d_pred(self.labeling(), big_value(*state)),
    {
        let ghost lab = self.labeling@;
        let index_within_block = big_mod_usize(state, self.block_size);
        proof {
            vstd::arithmetic::div_mod::lemma_mod_bound(
                big_value(*state) as int,
                self.block_size as int,
            );
        }
        let symbol = self.labeling[index_within_block];
        proof {
            lemma_count_at_pos(lab, index_within_block as int);
        }
        let j = self.find_symbol(symbol).unwrap();
        let cnt = self.counts[j];
        let num_previous_blocks = big_div_usize(state, self.block_size);
        let count_before_block = big_mul_usize(&num_previous_blocks, cnt);
        let pred = big_add_usize(&count_before_block, self.ranks[index_within_block]);
        proof {
            let sv = big_value(*state) as int;
            let len = lab.len() as int;
            assert((sv / len) * cnt == cnt * (sv / len)) by (nonlinear_arith);
        }
        (symbol, pred)
    }

    /// Message-level encode: folds the message from its last symbol to its
    /// first, starting at the sentinel state. Fails exactly when some symbol
    /// of the message does not occur in the labeling.
    pub fn encode(&self, msg: &str) -> (r: Result<BigUint, AnsError>)
        requires
            self.wf(),
        ensures
            match r {
                Ok(st) => all_known(self.labeling(), msg@) && big_value(st) == spec_encode(
                    self.labeling(),
                    msg@,
                ),
                Err(e) => !all_known(self.labeling(), msg@) && e == AnsError::UnknownSymbol,
            },
    {
        let ghost lab = self.labeling@;
        let n = msg.unicode_len();
        let mut t: usize = 0;
        while t < n
            invariant
                self.wf(),
                n == msg@.len(),
                t <= n,
                forall|u: int| 0 <= u < t ==> count_in(lab, #[trigger] msg@[u]) >= 1,
                lab == self.labeling@,
            decreases n - t,
        {
            let ch = msg.get_char(t);
            if self.find_symbol(ch).is_none() {
                return Err(AnsError::UnknownSymbol);
            }
            t = t + 1;
        }
        let mut state = big_clone(&self.initial_state);
        proof {
            assert(msg@.subrange(n as int, n as int) =~= Seq::<char>::empty());
        }
        let mut i: usize = n;
        while i > 0
            invariant
                self.wf(),
                n == msg@.len(),
                i <= n,
                lab == self.labeling@,
                all_known(lab, msg@),
                big_value(state) == spec_encode(lab, msg@.subrange(i as int, n as int)),
            decreases i,
        {
            i = i - 1;
            let ch = msg.get_char(i);
            proof {
                let sub1 = msg@.subrange(i as int, n as int);
                let sub0 = msg@.subrange(i + 1, n as int);
                assert(sub1.subrange(1, sub1.len() as int) =~= sub0);
                assert(sub1[0] == msg@[i as int]);
            }
            state = self.c(state, ch);
        }
        proof {
            assert(msg@.subrange(0, n as int) =~= msg@);
        }
        Ok(state)
    }

    /// Message-level decode: peels decode steps while the state sits strictly
    /// above the sentinel, guarding against a state that fails to decrease.
    /// Total for every state; exact for every state a matching `encode`
    /// produced.
    pub fn decode(&self, state: BigUint) -> (r: String)
        requires
            self.wf(),
        ensures
            r@ == spec_decode(self.labeling(), big_value(state)),
    {
        let ghost lab = self.labeling@;
        let ghost orig = big_value(state);
        let mut out: Vec<char> = Vec::new();
        let mut st = state;
        if self.block_size == 0 {
            return chars_to_string(&out);
        }
        let mut going = big_gt(&st, &self.initial_state);
        proof {
            assert(out@ + spec_decode(lab, big_value(st)) =~= spec_decode(lab, orig));
        }
        while going
            invariant
                self.wf(),
                lab == self.labeling@,
                lab.len() >= 1,
                going ==> big_value(st) > spec_initial(lab),
                !going ==> spec_decode(lab, big_value(st)) == Seq::<char>::empty(),
                out@ + spec_decode(lab, big_value(st)) == spec_decode(lab, orig),
            decreases big_value(st), (if going { 1int } else { 0int }),
        {
            let (symbol, pred) = self.d(&st);
            if big_gt(&st, &pred) {
                proof {
                    assert(spec_decode(lab, big_value(st)) == seq![symbol] + spec_decode(
                        lab,
                        big_value(pred),
                    ));
                    assert(out@ + (seq![symbol] + spec_decode(lab, big_value(pred))) =~= (out@
                        + seq![symbol]) + spec_decode(lab, big_value(pred)));
                }
                out.push(symbol);
                st = pred;
                going = big_gt(&st, &self.initial_state);
                proof {
                    if !going {
                        assert(spec_decode(lab, big_value(st)) =~= Seq::<char>::empty());
                    }
                }
            } else {
                proof {
                    assert(spec_decode(lab, big_value(st)) =~= Seq::<char>::empty());
                }
                going = false;
            }
        }
        proof {
            assert(out@ + Seq::<char>::empty() =~= out@);
        }
        chars_to_string(&out)
    }
}

} // verus!
