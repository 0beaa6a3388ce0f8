//! Numbers written as products of prime powers.

use vstd::arithmetic::power::pow;
use vstd::prelude::*;

verus! {

/// The value of a list of `(prime, exponent)` pairs: the product of the powers.
pub open spec fn factor_value(s: Seq<(u32, u32)>) -> int
    decreases s.len(),
{
    if s.len() == 0 {
        1
    } else {
        factor_value(s.drop_last()) * pow(s.last().0 as int, s.last().1 as nat)
    }
}

/// Every power, and every partial product taken from the front, fits in a `u32`.
pub open spec fn value_fits(s: Seq<(u32, u32)>) -> bool {
    forall|i: int|
        0 <= i < s.len() ==> pow(s[i].0 as int, s[i].1 as nat) <= u32::MAX && #[trigger] factor_value(
            s.take(i + 1),
        ) <= u32::MAX
}

/// The list that stands for one.
pub open spec fn one_factors() -> Seq<(u32, u32)> {
    seq![(2u32, 0u32)]
}

/// The decimal digit `d` as a character.
pub open spec fn digit_char(d: nat) -> char {
    (d + 48) as char
}

/// The decimal representation of `n`, without leading zeros.
pub open spec fn decimal(n: nat) -> Seq<char>
    decreases n,
{
    if n < 10 {
        seq![digit_char(n)]
    } else {
        decimal(n / 10).push(digit_char(n % 10))
    }
}

/// `p^e` for one pair.
pub open spec fn term_text(pe: (u32, u32)) -> Seq<char> {
    decimal(pe.0 as nat) + "^"@ + decimal(pe.1 as nat)
}

/// The pairs written as `p^e`, separated by ` * `.
pub open spec fn terms_text(s: Seq<(u32, u32)>) -> Seq<char>
    decreases s.len(),
{
    if s.len() <= 1 {
        if s.len() == 0 {
            Seq::empty()
        } else {
            term_text(s[0])
        }
    } else {
        terms_text(s.drop_last()) + " * "@ + term_text(s.last())
    }
}

/// How a factorization is displayed: `0`, `1`, or its terms followed by ` = ` and its value.
pub open spec fn display_text(s: Seq<(u32, u32)>) -> Seq<char> {
    if s.len() == 0 {
        "0"@
    } else if s == one_factors() {
        "1"@
    } else {
        terms_text(s) + " = "@ + decimal(factor_value(s) as nat)
    }
}

/// One pair written as `[p, e]`.
pub open spec fn pair_text(pe: (u32, u32)) -> Seq<char> {
    "["@ + decimal(pe.0 as nat) + ", "@ + decimal(pe.1 as nat) + "]"@
}

/// The pairs written as `[p, e]`, separated by `, `.
pub open spec fn pairs_text(s: Seq<(u32, u32)>) -> Seq<char>
    decreases s.len(),
{
    if s.len() <= 1 {
        if s.len() == 0 {
            Seq::empty()
        } else {
            pair_text(s[0])
        }
    } else {
        pairs_text(s.drop_last()) + ", "@ + pair_text(s.last())
    }
}

/// How a factorization is shown for debugging: the list of `[p, e]` pairs.
pub open spec fn debug_text(s: Seq<(u32, u32)>) -> Seq<char> {
    "["@ + pairs_text(s) + "]"@
}

/// The position of the first pair with prime `p`, or -1 when there is none.
pub open spec fn first_index_of(s: Seq<(u32, u32)>, p: u32) -> int
    decreases s.len(),
{
    if s.len() == 0 {
        -1
    } else if s[0].0 == p {
        0
    } else {
        let r = first_index_of(s.drop_first(), p);
        if r < 0 {
            -1
        } else {
            r + 1
        }
    }
}

/// The pairs after multiplying by `p^exp`: `(p, exp)` alone for one; otherwise `exp` added to
/// the exponent of the first pair with prime `p`, or `(p, exp)` appended if there is none.
pub open spec fn with_p_result(s: Seq<(u32, u32)>, p: u32, exp: u32) -> Seq<(u32, u32)> {
    if s == one_factors() {
        seq![(p, exp)]
    } else {
        let i = first_index_of(s, p);
        if i < 0 {
            s.push((p, exp))
        } else {
            s.update(i, (p, (s[i].1 + exp) as u32))
        }
    }
}

/// `first_index_of` finds the first pair with the prime, and only such a pair.
pub proof fn lemma_first_index_of(s: Seq<(u32, u32)>, p: u32)
    ensures
        -1 <= first_index_of(s, p) < s.len(),
        first_index_of(s, p) >= 0 ==> s[first_index_of(s, p)].0 == p,
        forall|j: int| 0 <= j < s.len() && (first_index_of(s, p) < 0 || j < first_index_of(s, p))
            ==> s[j].0 != p,
    decreases s.len(),
{
    if s.len() > 0 && s[0].0 != p {
        lemma_first_index_of(s.drop_first(), p);
        assert forall|j: int| 0 <= j < s.len() && (first_index_of(s, p) < 0 || j < first_index_of(s, p))
            implies s[j].0 != p by {
            if j > 0 {
                assert(s[j] == s.drop_first()[j - 1]);
            }
        }
    }
}

/// Raising the exponent of one pair by `e` multiplies the value by `p^e`.
pub proof fn lemma_value_update(s: Seq<(u32, u32)>, i: int, e: u32)
    requires
        0 <= i < s.len(),
        s[i].1 + e <= u32::MAX,
    ensures
        factor_value(s.update(i, (s[i].0, (s[i].1 + e) as u32))) == factor_value(s) * pow(
            s[i].0 as int,
            e as nat,
        ),
    decreases s.len(),
{
    let s2 = s.update(i, (s[i].0, (s[i].1 + e) as u32));
    let b = s[i].0 as int;
    let pe = pow(b, e as nat);
    assert(s2.drop_last() =~= if i == s.len() - 1 {
        s.drop_last()
    } else {
        s.drop_last().update(i, (s[i].0, (s[i].1 + e) as u32))
    });
    if i == s.len() - 1 {
        vstd::arithmetic::power::lemma_pow_adds(b, s[i].1 as nat, e as nat);
        let x = factor_value(s.drop_last());
        let pa = pow(b, s[i].1 as nat);
        assert(x * (pa * pe) == x * pa * pe) by (nonlinear_arith);
    } else {
        lemma_value_update(s.drop_last(), i, e);
        let x = factor_value(s.drop_last());
        let pl = pow(s.last().0 as int, s.last().1 as nat);
        assert(s2.last() == s.last());
        assert(x * pe * pl == x * pl * pe) by (nonlinear_arith);
    }
}

/// Multiplying a nonzero factorization by `p^exp` multiplies its value by `p^exp`.
pub proof fn lemma_with_p_multiplies(s: Seq<(u32, u32)>, p: u32, exp: u32)
    requires
        s.len() > 0,
        s != one_factors() && first_index_of(s, p) >= 0 ==> s[first_index_of(s, p)].1 + exp
            <= u32::MAX,
    ensures
        factor_value(with_p_result(s, p, exp)) == factor_value(s) * pow(p as int, exp as nat),
{
    lemma_first_index_of(s, p);
    if s == one_factors() {
        vstd::arithmetic::power::lemma_pow0(2);
        assert(s.drop_last() =~= Seq::<(u32, u32)>::empty());
        assert(s.last() == (2u32, 0u32));
        assert(factor_value(Seq::<(u32, u32)>::empty()) == 1);
        assert(pow(2, 0) == 1);
        assert(factor_value(s) == factor_value(s.drop_last()) * pow(2, 0));
        assert(seq![(p, exp)].drop_last() =~= Seq::<(u32, u32)>::empty());
        assert(factor_value(s) == 1);
    } else {
        let i = first_index_of(s, p);
        if i < 0 {
            assert(s.push((p, exp)).drop_last() =~= s);
        } else {
            lemma_value_update(s, i, exp);
        }
    }
}

/// A pair with prime `p` before which no pair has prime `p` is the first one.
proof fn lemma_first_index_unique(s: Seq<(u32, u32)>, p: u32, i: int)
    requires
        0 <= i < s.len(),
        s[i].0 == p,
        forall|j: int| 0 <= j < i ==> s[j].0 != p,
    ensures
        first_index_of(s, p) == i,
{
    lemma_first_index_of(s, p);
}

/// Multiplying by `p^a` and then by `p^b` is multiplying by `p^(a + b)`.
pub proof fn lemma_with_p_twice(s: Seq<(u32, u32)>, p: u32, a: u32, b: u32)
    requires
        a + b <= u32::MAX,
        s != one_factors() && first_index_of(s, p) >= 0 ==> s[first_index_of(s, p)].1 + a + b
            <= u32::MAX,
    ensures
        with_p_result(with_p_result(s, p, a), p, b) == with_p_result(s, p, (a + b) as u32),
{
    lemma_first_index_of(s, p);
    let s1 = with_p_result(s, p, a);
    if s == one_factors() {
        if p == 2 && a == 0 {
            assert(s1 == one_factors());
        } else {
            assert(s1 != one_factors()) by {
                assert(s1[0] != one_factors()[0]);
            }
            lemma_first_index_unique(s1, p, 0);
        }
    } else {
        let i = first_index_of(s, p);
        if i < 0 {
            if s.len() == 0 && p == 2 && a == 0 {
                assert(s1 =~= one_factors());
                assert(s.push((p, (a + b) as u32)) =~= seq![(p, b)]);
            } else {
                assert(s1 != one_factors()) by {
                    if s.len() == 0 {
                        assert(s1[0] != one_factors()[0]);
                    } else {
                        assert(s1.len() != one_factors().len());
                    }
                }
                assert forall|j: int| 0 <= j < s.len() implies s1[j].0 != p by {
                    assert(s1[j] == s[j]);
                }
                lemma_first_index_unique(s1, p, s.len() as int);
                assert(s1.update(s.len() as int, (p, (s1[s.len() as int].1 + b) as u32)) =~= s.push(
                    (p, (a + b) as u32),
                ));
            }
        } else {
            assert(s1 != one_factors()) by {
                if s1 == one_factors() {
                    assert(s.len() == 1);
                    assert(i == 0);
                    assert(s[0].0 == 2);
                    assert(s[0].1 + a == 0);
                    assert(s =~= one_factors());
                }
            }
            assert forall|j: int| 0 <= j < i implies s1[j].0 != p by {
                assert(s1[j] == s[j]);
            }
            lemma_first_index_unique(s1, p, i);
            assert(s1.update(i, (p, (s1[i].1 + b) as u32)) =~= s.update(
                i,
                (p, (s[i].1 + (a + b) as u32) as u32),
            ));
        }
    }
}

/// `p^e`, or `None` when it does not fit in a `u32`.
fn checked_pow(b: u32, e: u32) -> (r: Option<u32>)
    ensures
        r is Some <==> pow(b as int, e as nat) <= u32::MAX,
        r is Some ==> r->0 == pow(b as int, e as nat),
{
    if b <= 1 || e == 0 {
        proof {
            if e == 0 {
                vstd::arithmetic::power::lemma_pow0(b as int);
            } else if b == 0 {
                vstd::arithmetic::power::lemma0_pow(e as nat);
            } else {
                vstd::arithmetic::power::lemma1_pow(e as nat);
            }
        }
        return Some(checked_pow_fits(b, e));
    }
    let mut acc: u32 = 1;
    let mut i: u32 = 0;
    proof {
        vstd::arithmetic::power::lemma_pow0(b as int);
    }
    while i < e
        invariant
            2 <= b,
            i <= e,
            acc == pow(b as int, i as nat),
        decreases e - i,
    {
        proof {
            reveal(pow);
            assert(pow(b as int, (i + 1) as nat) == b * pow(b as int, i as nat));
            assert(acc * b == b * acc) by (nonlinear_arith);
        }
        let next = acc.checked_mul(b);
        if next.is_none() {
            proof {
                vstd::arithmetic::power::lemma_pow_increases(b as nat, (i + 1) as nat, e as nat);
            }
            return None;
        }
        acc = next.unwrap();
        i = i + 1;
    }
    Some(acc)
}

/// The number that a string of decimal digits stands for, most significant digit first.
pub open spec fn digits_value(cs: Seq<char>) -> nat
    decreases cs.len(),
{
    if cs.len() == 0 {
        0
    } else {
        (digits_value(cs.drop_last()) * 10 + (cs.last() as nat - 48)) as nat
    }
}

/// `c` is one of the characters `0` to `9`.
pub open spec fn is_digit(c: char) -> bool {
    '0' <= c && c <= '9'
}

/// `decimal(n)` is the base-10 numeral of `n`: a nonempty string of digits, with no leading
/// zero unless it is `0` itself, that reads back as `n`; one more digit `d` at the end
/// stands for `10 * q + d`.
pub proof fn lemma_decimal(n: nat)
    ensures
        decimal(n).len() >= 1,
        forall|i: int| 0 <= i < decimal(n).len() ==> is_digit(#[trigger] decimal(n)[i]),
        digits_value(decimal(n)) == n,
        decimal(n)[0] == '0' ==> n == 0,
        n >= 10 ==> decimal(n) == decimal(n / 10).push(digit_char(n % 10)),
    decreases n,
{
    if n >= 10 {
        lemma_decimal(n / 10);
        let d = decimal(n / 10);
        let e = decimal(n);
        assert(e.drop_last() =~= d);
        assert(e[0] == d[0]);
        assert forall|i: int| 0 <= i < e.len() implies is_digit(#[trigger] e[i]) by {
            if i < d.len() {
                assert(e[i] == d[i]);
            }
        }
        assert(e.last() as nat == n % 10 + 48);
        assert(digits_value(e) == digits_value(d) * 10 + n % 10);
        assert((n / 10) * 10 + n % 10 == n) by (nonlinear_arith);
    } else {
        let e = decimal(n);
        assert(e.last() as nat == n + 48);
        assert(e.drop_last() =~= Seq::<char>::empty());
        assert(digits_value(e.drop_last()) == 0);
        assert(digits_value(e) == n);
    }
}

/// Appending a digit `d` to the numeral of `q >= 1` gives the numeral of `10 * q + d`.
pub proof fn lemma_decimal_append(q: nat, d: nat)
    requires
        q >= 1,
        d < 10,
    ensures
        decimal(10 * q + d) == decimal(q).push(digit_char(d)),
{
    let n = 10 * q + d;
    assert(n / 10 == q && n % 10 == d) by (nonlinear_arith)
        requires
            n == 10 * q + d,
            d < 10,
    ;
    lemma_decimal(n);
}

/// The terms of two nonempty lists of pairs, written one after the other, are the terms of
/// the first, ` * `, and the terms of the second: every pair gets its term, in order.
pub proof fn lemma_terms_concat(s: Seq<(u32, u32)>, t: Seq<(u32, u32)>)
    requires
        s.len() >= 1,
        t.len() >= 1,
    ensures
        terms_text(s + t) == terms_text(s) + " * "@ + terms_text(t),
        terms_text(seq![t[0]]) == term_text(t[0]),
    decreases t.len(),
{
    if t.len() == 1 {
        assert((s + t).drop_last() =~= s);
        assert((s + t).last() == t[0]);
    } else {
        let t1 = t.drop_last();
        lemma_terms_concat(s, t1);
        assert((s + t).drop_last() =~= s + t1);
        assert((s + t).last() == t.last());
        assert(terms_text(s + t) =~= terms_text(s) + " * "@ + terms_text(t));
    }
}

/// The `[p, e]` items of two nonempty lists of pairs, written one after the other, are the
/// items of the first, `, `, and the items of the second: every pair gets its item, in
/// order.
pub proof fn lemma_pairs_concat(s: Seq<(u32, u32)>, t: Seq<(u32, u32)>)
    requires
        s.len() >= 1,
        t.len() >= 1,
    ensures
        pairs_text(s + t) == pairs_text(s) + ", "@ + pairs_text(t),
        pairs_text(seq![t[0]]) == pair_text(t[0]),
    decreases t.len(),
{
    if t.len() == 1 {
        assert((s + t).drop_last() =~= s);
        assert((s + t).last() == t[0]);
    } else {
        let t1 = t.drop_last();
        lemma_pairs_concat(s, t1);
        assert((s + t).drop_last() =~= s + t1);
        assert((s + t).last() == t.last());
        assert(pairs_text(s + t) =~= pairs_text(s) + ", "@ + pairs_text(t));
    }
}

/// `u32`'s `to_string`. Claims: the result is the decimal representation of `x`.
#[verifier::external_body]
fn decimal_string(x: u32) -> (s: String)
    ensures
        s@ == decimal(x as nat),
{
    x.to_string()
}

/// `b` raised to `e`, which must fit in a `u32`.
pub fn checked_pow_fits(b: u32, e: u32) -> (r: u32)
    requires
        pow(b as int, e as nat) <= u32::MAX,
    ensures
        r == pow(b as int, e as nat),
{
    if e == 0 {
        proof {
            vstd::arithmetic::power::lemma_pow0(b as int);
        }
        return 1;
    }
    if b <= 1 {
        proof {
            if b == 0 {
                vstd::arithmetic::power::lemma0_pow(e as nat);
            } else {
                vstd::arithmetic::power::lemma1_pow(e as nat);
            }
        }
        return b;
    }
    let mut acc: u32 = 1;
    let mut i: u32 = 0;
    proof {
        vstd::arithmetic::power::lemma_pow0(b as int);
    }
    while i < e
        invariant
            2 <= b,
            i <= e,
            acc == pow(b as int, i as nat),
            pow(b as int, e as nat) <= u32::MAX,
        decreases e - i,
    {
        proof {
            vstd::arithmetic::power::lemma_pow_increases(b as nat, (i + 1) as nat, e as nat);
            reveal(pow);
            assert(pow(b as int, (i + 1) as nat) == b * pow(b as int, i as nat));
        }
        acc = acc * b;
        i = i + 1;
    }
    acc
}

/// A number as a list of `(prime, exponent)` pairs. The empty list stands for zero and the
/// single pair `(2, 0)` for one.
#[derive(Clone)]
pub struct PrimeFactorization {
    primes: Vec<(u32, u32)>,
}

impl View for PrimeFactorization {
    type V = Seq<(u32, u32)>;

    closed spec fn view(&self) -> Seq<(u32, u32)> {
        self.primes@
    }
}

impl PrimeFactorization {
    /// Zero: no pairs.
    pub fn zero() -> (z: Self)
        ensures
            z@ == Seq::<(u32, u32)>::empty(),
    {
        PrimeFactorization { primes: Vec::new() }
    }

    /// One: the single pair `(2, 0)`.
    pub fn one() -> (o: Self)
        ensures
            o@ == one_factors(),
    {
        let mut primes = Vec::new();
        primes.push((2u32, 0u32));
        proof {
            assert(primes@ =~= one_factors());
        }
        PrimeFactorization { primes }
    }

    /// The factorization with exactly the pairs given, in that order.
    pub fn from_primes(primes: Vec<(u32, u32)>) -> (f: Self)
        ensures
            f@ == primes@,
    {
        PrimeFactorization { primes }
    }

    /// The `(prime, exponent)` pairs, in order.
    pub fn pairs(&self) -> (v: Vec<(u32, u32)>)
        ensures
            v@ == self@,
    {
        let mut v: Vec<(u32, u32)> = Vec::new();
        let mut i: usize = 0;
        while i < self.primes.len()
            invariant
                i <= self@.len(),
                v@ == self@.take(i as int),
            decreases self@.len() - i,
        {
            v.push(self.primes[i]);
            proof {
                assert(self@.take(i + 1) =~= self@.take(i as int).push(self@[i as int]));
            }
            i = i + 1;
        }
        proof {
            assert(self@.take(i as int) =~= self@);
        }
        v
    }

    /// Whether this is zero (there are no pairs).
    pub fn is_zero(&self) -> (b: bool)
        ensures
            b == (self@.len() == 0),
    {
        self.primes.len() == 0
    }

    /// Whether this is one (exactly the pair `(2, 0)`).
    pub fn is_one(&self) -> (b: bool)
        ensures
            b == (self@ == one_factors()),
    {
        if self.primes.len() == 1 {
            let (p, e) = self.primes[0];
            proof {
                if p == 2 && e == 0 {
                    assert(self@ =~= one_factors());
                }
            }
            p == 2 && e == 0
        } else {
            false
        }
    }

    /// Whether there is exactly one pair and this is not one.
    pub fn is_prime(&self) -> (b: bool)
        ensures
            b == (self@.len() == 1 && self@ != one_factors()),
    {
        self.primes.len() == 1 && !self.is_one()
    }

    /// The primes of the pairs, in order.
    pub fn prime_factors(&self) -> (ps: Vec<u32>)
        ensures
            ps@ == self@.map_values(|pe: (u32, u32)| pe.0),
    {
        let mut ps: Vec<u32> = Vec::new();
        let mut i: usize = 0;
        while i < self.primes.len()
            invariant
                i <= self@.len(),
                ps@ == self@.take(i as int).map_values(|pe: (u32, u32)| pe.0),
            decreases self@.len() - i,
        {
            ps.push(self.primes[i].0);
            proof {
                assert(self@.take(i + 1) =~= self@.take(i as int).push(self@[i as int]));
            }
            i = i + 1;
        }
        proof {
            assert(self@.take(i as int) =~= self@);
        }
        ps
    }

    /// Whether every power, and every partial product taken from the front, fits in a `u32`:
    /// the condition under which `val` can compute the number.
    pub fn value_fits_exec(&self) -> (b: bool)
        ensures
            b == value_fits(self@),
    {
        let mut acc: u32 = 1;
        let mut i: usize = 0;
        while i < self.primes.len()
            invariant
                i <= self@.len(),
                acc == factor_value(self@.take(i as int)),
                forall|j: int| 0 <= j < i ==> #[trigger] factor_value(self@.take(j + 1)) <= u32::MAX,
                forall|j: int|
                    0 <= j < i ==> pow(#[trigger] self@[j].0 as int, self@[j].1 as nat) <= u32::MAX,
            decreases self@.len() - i,
        {
            let (p, e) = self.primes[i];
            proof {
                assert(self@.take(i + 1).drop_last() =~= self@.take(i as int));
                assert(self@.take(i + 1).last() == self@[i as int]);
                assert(factor_value(self@.take(i + 1)) == factor_value(self@.take(i as int)) * pow(
                    p as int,
                    e as nat,
                ));
            }
            let pw = checked_pow(p, e);
            if pw.is_none() {
                proof {
                    assert(!(pow(self@[i as int].0 as int, self@[i as int].1 as nat) <= u32::MAX
                        && factor_value(self@.take(i + 1)) <= u32::MAX));
                    assert(!value_fits(self@));
                }
                return false;
            }
            let next = acc.checked_mul(pw.unwrap());
            if next.is_none() {
                proof {
                    assert(!(factor_value(self@.take(i + 1)) <= u32::MAX));
                    assert(!value_fits(self@));
                }
                return false;
            }
            let ghost old_i = i;
            acc = next.unwrap();
            i = i + 1;
            proof {
                assert(acc == factor_value(self@.take(i as int)));
                assert(pow(self@[old_i as int].0 as int, self@[old_i as int].1 as nat) <= u32::MAX);
                assert(factor_value(self@.take(old_i + 1)) <= u32::MAX);

            }
        }
        proof {
            assert forall|j: int| 0 <= j < self@.len() implies pow(self@[j].0 as int, self@[j].1 as nat)
                <= u32::MAX && #[trigger] factor_value(self@.take(j + 1)) <= u32::MAX by {
                assert(pow(self@[j].0 as int, self@[j].1 as nat) <= u32::MAX);
            }
        }
        true
    }

    /// The number: zero for no pairs, else the product of `p^e` over the pairs.
    pub fn val(&self) -> (v: u32)
        requires
            value_fits(self@),
        ensures
            v == (if self@.len() == 0 {
                0
            } else {
                factor_value(self@)
            }),
    {
        if self.is_zero() {
            return 0;
        }
        let mut acc: u32 = 1;
        let mut i: usize = 0;
        while i < self.primes.len()
            invariant
                i <= self@.len(),
                value_fits(self@),
                acc == factor_value(self@.take(i as int)),
            decreases self@.len() - i,
        {
            let (p, e) = self.primes[i];
            proof {
                assert(self@.take(i + 1).drop_last() =~= self@.take(i as int));
                assert(factor_value(self@.take(i + 1)) <= u32::MAX);
            }
            let pw = checked_pow_fits(p, e);
            acc = acc * pw;
            i = i + 1;
        }
        proof {
            assert(self@.take(i as int) =~= self@);
        }
        acc
    }

    /// Multiplies by `p^exp`. On one, gives the single pair `(p, exp)`; otherwise adds `exp`
    /// to the exponent of the first pair with prime `p`, or appends `(p, exp)` if there is
    /// none.
    pub fn with_p(self, p: u32, exp: u32) -> (f: Self)
        requires
            self@ != one_factors() && first_index_of(self@, p) >= 0 ==> self@[first_index_of(
                self@,
                p,
            )].1 + exp <= u32::MAX,
        ensures
            self@ == one_factors() ==> f@ == seq![(p, exp)],
            self@ != one_factors() && (forall|i: int| 0 <= i < self@.len() ==> self@[i].0 != p)
                ==> f@ == self@.push((p, exp)),
            forall|i: int|
                self@ != one_factors() && 0 <= i < self@.len() && self@[i].0 == p && (forall|j: int|
                    0 <= j < i ==> self@[j].0 != p) ==> f@ == self@.update(i, (p, (self@[i].1 + exp) as u32)),
            f@ == with_p_result(self@, p, exp),
    {
        proof {
            lemma_first_index_of(self@, p);
        }
        let is_one = self.is_one();
        let ghost s0 = self@;
        let mut primes = self.primes;
        if is_one {
            let mut v: Vec<(u32, u32)> = Vec::new();
            v.push((p, exp));
            proof {
                assert(v@ =~= seq![(p, exp)]);
            }
            return PrimeFactorization { primes: v };
        }
        let mut i: usize = 0;
        while i < primes.len()
            invariant
                primes@ == s0,
                s0 == self@,
                s0 != one_factors(),
                first_index_of(s0, p) >= 0 ==> s0[first_index_of(s0, p)].1 + exp <= u32::MAX,
                i <= primes@.len(),
                forall|j: int| 0 <= j < i ==> primes@[j].0 != p,
                -1 <= first_index_of(s0, p) < s0.len(),
                first_index_of(s0, p) >= 0 ==> s0[first_index_of(s0, p)].0 == p,
                forall|j: int| 0 <= j < s0.len() && (first_index_of(s0, p) < 0 || j < first_index_of(s0, p))
                    ==> s0[j].0 != p,
            decreases primes@.len() - i,
        {
            if primes[i].0 == p {
                let (q, e) = primes[i];
                primes.set(i, (q, e + exp));
                return PrimeFactorization { primes };
            }
            i = i + 1;
        }
        primes.push((p, exp));
        PrimeFactorization { primes }
    }

    /// The text that displays this factorization: `0`, `1`, or `p^e * ... = value`.
    pub fn to_display_string(&self) -> (t: String)
        requires
            self@.len() != 0 && self@ != one_factors() ==> value_fits(self@),
        ensures
            t@ == display_text(self@),
    {
        let mut t = String::new();
        if self.is_zero() {
            t.append("0");
            return t;
        } else if self.is_one() {
            t.append("1");
            return t;
        }
        let mut i: usize = 0;
        while i < self.primes.len()
            invariant
                1 <= self@.len(),
                i <= self@.len(),
                t@ == terms_text(self@.take(i as int)),
            decreases self@.len() - i,
        {
            let ghost before = t@;
            if i > 0 {
                t.append(" * ");
            }
            let (p, e) = self.primes[i];
            let ps = decimal_string(p);
            t.append(ps.as_str());
            t.append("^");
            let es = decimal_string(e);
            t.append(es.as_str());
            proof {
                let s1 = self@.take(i + 1);
                assert(s1.drop_last() =~= self@.take(i as int));
                if i == 0 {
                    assert(s1 =~= seq![self@[0]]);
                    assert(t@ =~= term_text(self@[0]));
                } else {
                    assert(t@ =~= before + " * "@ + term_text(self@[i as int]));
                }
            }
            i = i + 1;
        }
        proof {
            assert(self@.take(i as int) =~= self@);
        }
        t.append(" = ");
        let vs = decimal_string(self.val());
        t.append(vs.as_str());
        t
    }

    /// The text that shows this factorization's pairs: `[[p, e], ...]`.
    pub fn to_debug_string(&self) -> (t: String)
        ensures
            t@ == debug_text(self@),
    {
        let mut t = String::new();
        t.append("[");
        let mut i: usize = 0;
        while i < self.primes.len()
            invariant
                i <= self@.len(),
                t@ == "["@ + pairs_text(self@.take(i as int)),
            decreases self@.len() - i,
        {
            let ghost before = t@;
            if i > 0 {
                t.append(", ");
            }
            let (p, e) = self.primes[i];
            t.append("[");
            let ps = decimal_string(p);
            t.append(ps.as_str());
            t.append(", ");
            let es = decimal_string(e);
            t.append(es.as_str());
            t.append("]");
            proof {
                let s1 = self@.take(i + 1);
                assert(s1.drop_last() =~= self@.take(i as int));
                if i == 0 {
                    assert(s1 =~= seq![self@[0]]);
                    assert(self@.take(0) =~= Seq::<(u32, u32)>::empty());
                    assert(t@ =~= "["@ + pair_text(self@[0]));
                } else {
                    assert(t@ =~= before + ", "@ + pair_text(self@[i as int]));
                }
            }
            i = i + 1;
        }
        proof {
            assert(self@.take(i as int) =~= self@);
        }
        t.append("]");
        t
    }
}

} // verus!
