//! The continued-fraction spigot: e as the value of its continued fraction,
//! read through a homographic map `x -> (q x + r) / (s x + t)` of the unknown
//! tail, emitting a digit once every tail gives the same one.
use vstd::prelude::*;

use num::BigInt;

use crate::bignum::{int_add, int_div_floor, int_eq, int_from, int_mul, int_of, int_sub, int_to_u8};

verus! {

/// The `k`-th partial quotient of the continued fraction of e,
/// `[2; 1, 2, 1, 1, 4, 1, 1, 6, ...]`.
pub open spec fn cf_term_spec(k: nat) -> nat {
    if k == 0 {
        2
    } else if k % 3 == 2 {
        2 * (k / 3 + 1)
    } else {
        1
    }
}

/// The `k`-th partial quotient of the continued fraction of e.
pub fn cf_term(k: u64) -> (a: u64)
    ensures
        a == cf_term_spec(k as nat),
{
    if k == 0 {
        2
    } else if k % 3 == 2 {
        2 * (k / 3 + 1)
    } else {
        1
    }
}

/// The map `x -> (q x + r) / (s x + t)` and the index `k` of the next
/// partial quotient to take in.
pub struct CfState {
    pub q: int,
    pub r: int,
    pub s: int,
    pub t: int,
    pub k: nat,
}

/// A fresh spigot: the identity map, before the first partial quotient.
pub open spec fn cf_start() -> CfState {
    CfState { q: 1, r: 0, s: 0, t: 1, k: 0 }
}

/// Takes in the next partial quotient `a`: composes with `[[a, 1], [1, 0]]`.
pub open spec fn cf_absorb(st: CfState) -> CfState {
    let a = cf_term_spec(st.k);
    CfState { q: st.q * a + st.r, r: st.q, s: st.s * a + st.t, t: st.s, k: st.k + 1 }
}

/// The digit that every tail gives, where the images `q / s` and
/// `(q + r) / (s + t)` have the same floor and it is a decimal digit.
pub open spec fn cf_extract(st: CfState) -> Option<int> {
    if st.s != 0 && st.s + st.t != 0 && st.q / st.s == (st.q + st.r) / (st.s + st.t) && 0 <= st.q
        / st.s <= 9 {
        Some(st.q / st.s)
    } else {
        None
    }
}

/// Takes digit `d` off: composes with `x -> 10 x - 10 d` on the left.
pub open spec fn cf_produce(st: CfState, d: int) -> CfState {
    CfState { q: 10 * st.q - 10 * d * st.s, r: 10 * st.r - 10 * d * st.t, s: st.s, t: st.t, k: st.k }
}

/// One move of the spigot: emit the digit if it is known, else take in the
/// next partial quotient.
pub open spec fn cf_advance(st: CfState) -> CfState {
    match cf_extract(st) {
        Some(d) => cf_produce(st, d),
        None => cf_absorb(st),
    }
}

/// The state after `n` moves.
pub open spec fn cf_moves(st: CfState, n: nat) -> CfState
    decreases n,
{
    if n == 0 {
        st
    } else {
        cf_advance(cf_moves(st, (n - 1) as nat))
    }
}

/// The digits emitted during the first `n` moves.
pub open spec fn cf_emitted(st: CfState, n: nat) -> Seq<int>
    decreases n,
{
    if n == 0 {
        Seq::empty()
    } else {
        let before = cf_emitted(st, (n - 1) as nat);
        match cf_extract(cf_moves(st, (n - 1) as nat)) {
            Some(d) => before.push(d),
            None => before,
        }
    }
}


/// A sequence of digits read as integers.
pub open spec fn digit_values(v: Seq<u8>) -> Seq<int> {
    v.map_values(|x: u8| x as int)
}

/// Some number of moves leads from `from` to `to` and emits `out`.
pub open spec fn reached(from: CfState, to: CfState, out: Seq<int>) -> bool {
    exists|m: nat| #[trigger] cf_moves(from, m) == to && cf_emitted(from, m) == out
}

/// Some number of moves leads from `from` to `to`, the last of them emits
/// `d` and none before it emits a digit.
pub open spec fn pulled_at_last(from: CfState, to: CfState, d: int) -> bool {
    exists|m: nat|
        m >= 1 && #[trigger] cf_moves(from, m) == to && cf_emitted(from, (m - 1) as nat)
            == Seq::<int>::empty() && cf_extract(cf_moves(from, (m - 1) as nat)) == Some(d)
}

proof fn lemma_pulled_reached(from: CfState, to: CfState, d: int)
    requires
        pulled_at_last(from, to, d),
    ensures
        reached(from, to, seq![d]),
{
    let m = choose|m: nat|
        m >= 1 && #[trigger] cf_moves(from, m) == to && cf_emitted(from, (m - 1) as nat)
            == Seq::<int>::empty() && cf_extract(cf_moves(from, (m - 1) as nat)) == Some(d);
    assert(cf_emitted(from, m) =~= seq![d]);
}

proof fn lemma_reached_chain(a: CfState, b: CfState, c: CfState, o1: Seq<int>, o2: Seq<int>)
    requires
        reached(a, b, o1),
        reached(b, c, o2),
    ensures
        reached(a, c, o1 + o2),
{
    let m = choose|m: nat| #[trigger] cf_moves(a, m) == b && cf_emitted(a, m) == o1;
    let j = choose|j: nat| #[trigger] cf_moves(b, j) == c && cf_emitted(b, j) == o2;
    lemma_moves_then_emitted(a, m, j);
    assert(cf_moves(a, m + j) == c);
}

/// The digits emitted in the first `m1` moves begin those emitted in the
/// first `m2`, for `m1 <= m2`: a digit once emitted is never taken back.
pub proof fn lemma_emitted_grows(st: CfState, m1: nat, m2: nat)
    requires
        m1 <= m2,
    ensures
        cf_emitted(st, m1).len() <= cf_emitted(st, m2).len(),
        cf_emitted(st, m1) == cf_emitted(st, m2).subrange(0, cf_emitted(st, m1).len() as int),
    decreases m2 - m1,
{
    if m1 < m2 {
        lemma_emitted_grows(st, m1, (m2 - 1) as nat);
        let a = cf_emitted(st, m1);
        let b = cf_emitted(st, (m2 - 1) as nat);
        let c = cf_emitted(st, m2);
        assert(c.subrange(0, b.len() as int) =~= b);
        assert(c.subrange(0, a.len() as int) =~= b.subrange(0, a.len() as int));
    } else {
        assert(cf_emitted(st, m1) =~= cf_emitted(st, m2).subrange(0, cf_emitted(st, m1).len() as int));
    }
}

/// Two runs of the spigot from one state that have emitted equally many
/// digits have emitted the same digits: a fresh spigot asked for `n` digits
/// always gives the same ones.
pub proof fn lemma_same_count_same_digits(st: CfState, m1: nat, m2: nat)
    requires
        cf_emitted(st, m1).len() == cf_emitted(st, m2).len(),
    ensures
        cf_emitted(st, m1) == cf_emitted(st, m2),
{
    if m1 <= m2 {
        lemma_emitted_grows(st, m1, m2);
        assert(cf_emitted(st, m2).subrange(0, cf_emitted(st, m2).len() as int) =~= cf_emitted(st, m2));
    } else {
        lemma_emitted_grows(st, m2, m1);
        assert(cf_emitted(st, m1).subrange(0, cf_emitted(st, m1).len() as int) =~= cf_emitted(st, m1));
    }
}

/// The denominators of the map stay non-negative.
pub open spec fn cf_wf(st: CfState) -> bool {
    st.s >= 0 && st.t >= 0
}

/// The continued-fraction spigot, an endless source of the digits of e.
pub struct ContinuedFractionDigits {
    q: BigInt,
    r: BigInt,
    s: BigInt,
    t: BigInt,
    k: u64,
}

impl View for ContinuedFractionDigits {
    type V = CfState;

    closed spec fn view(&self) -> CfState {
        CfState {
            q: int_of(self.q),
            r: int_of(self.r),
            s: int_of(self.s),
            t: int_of(self.t),
            k: self.k as nat,
        }
    }
}

impl ContinuedFractionDigits {
    /// A fresh spigot, before its first digit.
    pub fn new() -> (e: ContinuedFractionDigits)
        ensures
            e@ == cf_start(),
    {
        ContinuedFractionDigits { q: int_from(1), r: int_from(0), s: int_from(0), t: int_from(1), k: 0 }
    }

    /// Takes in the next partial quotient.
    pub fn absorb(&mut self)
        requires
            cf_wf(old(self)@),
            old(self)@.k < u64::MAX,
        ensures
            final(self)@ == cf_absorb(old(self)@),
            cf_wf(final(self)@),
    {
        let ghost st = self@;
        let a = int_from(cf_term(self.k));
        let mut q = int_add(&int_mul(&self.q, &a), &self.r);
        let mut s = int_add(&int_mul(&self.s, &a), &self.t);
        std::mem::swap(&mut self.q, &mut q);
        std::mem::swap(&mut self.s, &mut s);
        self.r = q;
        self.t = s;
        self.k = self.k + 1;
        assert(st.s * cf_term_spec(st.k) >= 0) by (nonlinear_arith)
            requires
                st.s >= 0,
        ;
    }

    /// The next digit, where the map already decides it.
    pub fn extract(&self) -> (d: Option<u8>)
        requires
            cf_wf(self@),
        ensures
            d.is_some() == cf_extract(self@).is_some(),
            d.is_some() ==> cf_extract(self@) == Some(d.unwrap() as int),
    {
        let zero = int_from(0);
        if int_eq(&self.s, &zero) {
            return None;
        }
        let st = int_add(&self.s, &self.t);
        if int_eq(&st, &zero) {
            return None;
        }
        let low = int_div_floor(&self.q, &self.s);
        let high = int_div_floor(&int_add(&self.q, &self.r), &st);
        if !int_eq(&low, &high) {
            return None;
        }
        match int_to_u8(&low) {
            Some(d) => if d <= 9 {
                Some(d)
            } else {
                None
            },
            None => None,
        }
    }

    /// Pulls the next digit, taking in partial quotients until the map
    /// decides it. `None` only when the partial-quotient index has reached
    /// `u64::MAX`.
    pub fn next_digit(&mut self) -> (d: Option<u8>)
        requires
            cf_wf(old(self)@),
        ensures
            cf_wf(final(self)@),
            d.is_some() ==> pulled_at_last(old(self)@, final(self)@, d.unwrap() as int),
            d.is_none() ==> reached(old(self)@, final(self)@, Seq::empty()) && final(self)@.k
                == u64::MAX,
    {
        let ghost start = self@;
        let ghost mut m: nat = 0;
        loop
            invariant
                cf_wf(self@),
                self@ == cf_moves(start, m),
                cf_emitted(start, m) == Seq::<int>::empty(),
            start == old(self)@,
            decreases u64::MAX - self.k,
        {
            match self.extract() {
                Some(d) => {
                    let ghost pre = self@;
                    self.produce(d);
                    assert(cf_moves(start, m + 1) == self@);
                    assert(cf_moves(start, ((m + 1) - 1) as nat) == pre);
                    assert(pulled_at_last(start, self@, d as int));
                    return Some(d);
                },
                None => {
                    if self.k == u64::MAX {
                        assert(cf_moves(start, m) == self@);
                        assert(reached(start, self@, Seq::empty()));
                        return None;
                    }
                    self.absorb();
                    proof {
                        assert(cf_moves(start, m + 1) == self@);
                        assert(cf_emitted(start, m + 1) == cf_emitted(start, m));
                        m = m + 1;
                    }
                },
            }
        }
    }

    /// Pulls up to `n` digits; fewer only when the partial-quotient index
    /// has reached `u64::MAX`.
    pub fn take_digits(&mut self, n: usize) -> (v: Vec<u8>)
        requires
            cf_wf(old(self)@),
        ensures
            cf_wf(final(self)@),
            reached(old(self)@, final(self)@, digit_values(v@)),
            v@.len() <= n,
            v@.len() < n ==> final(self)@.k == u64::MAX,
    {
        let ghost start = self@;
        let mut v: Vec<u8> = Vec::new();
        assert(cf_moves(start, 0) == self@);
        assert(digit_values(v@) =~= cf_emitted(start, 0));
        while v.len() < n
            invariant
                cf_wf(self@),
                reached(start, self@, digit_values(v@)),
                v@.len() <= n,
                start == old(self)@,
            decreases n - v@.len(),
        {
            let ghost before = self@;
            let ghost w = v@;
            match self.next_digit() {
                Some(d) => {
                    v.push(d);
                    proof {
                        lemma_pulled_reached(before, self@, d as int);
                        lemma_reached_chain(start, before, self@, digit_values(w), seq![d as int]);
                        assert(digit_values(v@) =~= digit_values(w) + seq![d as int]);
                    }
                },
                None => {
                    proof {
                        lemma_reached_chain(start, before, self@, digit_values(w), Seq::empty());
                        assert(digit_values(w) + Seq::<int>::empty() =~= digit_values(w));
                        assert(reached(start, self@, digit_values(v@)));
                    }
                    return v;
                },
            }
        }
        v
    }

    /// Takes digit `d` off the map.
    pub fn produce(&mut self, d: u8)
        ensures
            final(self)@ == cf_produce(old(self)@, d as int),
    {
        let ten = int_from(10);
        let ten_d = int_from(10 * (d as u64));
        self.q = int_sub(&int_mul(&ten, &self.q), &int_mul(&ten_d, &self.s));
        self.r = int_sub(&int_mul(&ten, &self.r), &int_mul(&ten_d, &self.t));
    }
}

/// Moves made in two runs add up, and so do the digits that they emit.
proof fn lemma_moves_then_emitted(st: CfState, m: nat, j: nat)
    ensures
        cf_moves(st, m + j) == cf_moves(cf_moves(st, m), j),
        cf_emitted(st, m + j) == cf_emitted(st, m) + cf_emitted(cf_moves(st, m), j),
    decreases j,
{
    if j > 0 {
        lemma_moves_then_emitted(st, m, (j - 1) as nat);
        assert(cf_moves(st, m + j) == cf_advance(cf_moves(st, (m + j - 1) as nat)));
        let mid = cf_moves(st, m);
        let a = cf_emitted(st, m);
        let b = cf_emitted(mid, (j - 1) as nat);
        match cf_extract(cf_moves(mid, (j - 1) as nat)) {
            Some(d) => {
                assert(a + b.push(d) =~= (a + b).push(d));
            },
            None => {},
        }
    } else {
        assert(cf_emitted(st, m) + Seq::<int>::empty() =~= cf_emitted(st, m));
    }
}

/// The first `n` digits of e from a fresh continued-fraction spigot; fewer
/// only when the partial-quotient index has reached `u64::MAX`.
pub fn cf_digits(n: usize) -> (v: Vec<u8>)
    ensures
        exists|st: CfState| reached(cf_start(), st, digit_values(v@)) && (v@.len() < n ==> st.k
            == u64::MAX),
        v@.len() <= n,
{
    let mut e = ContinuedFractionDigits::new();
    e.take_digits(n)
}

} // verus!
