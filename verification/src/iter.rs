//! Set partitions: a table of partition counts, the enumeration of all partitions of a
//! sequence, and its combinations.

use itertools::Itertools;
use vstd::arithmetic::power::pow;
use vstd::prelude::*;

verus! {

/// The number of ways to spread `n` more items (counting the one being placed) over groups,
/// when `m` groups are open to the first of them: it joins one of the `m` groups or opens a
/// new one. `partitions_count(n, 1)` is the number of partitions of an `n`-element set.
pub open spec fn partitions_count(n: nat, m: nat) -> nat
    decreases n,
{
    if n <= 1 {
        1
    } else {
        m * partitions_count((n - 1) as nat, m) + partitions_count((n - 1) as nat, m + 1)
    }
}

/// The `k`-th triangular number, `0 + 1 + ... + k`.
pub open spec fn tri(k: nat) -> nat
    decreases k,
{
    if k == 0 {
        0
    } else {
        tri((k - 1) as nat) + k
    }
}

/// Where the table keeps `partitions_count(n, m)`: diagonal `n + m - 2`, position `n - 1`.
pub open spec fn table_index(n: nat, m: nat) -> nat {
    (tri((n + m - 2) as nat) + n - 1) as nat
}

/// Every count on the first `levels` diagonals fits in a `usize`.
pub open spec fn counts_fit(levels: nat) -> bool {
    forall|a: nat, b: nat|
        1 <= a && 1 <= b && a + b - 1 <= levels ==> #[trigger] partitions_count(a, b)
            <= usize::MAX
}

/// Twice a triangular number is the product of consecutive numbers.
pub proof fn lemma_tri_closed_form(k: nat)
    ensures
        2 * tri(k) == k * (k + 1),
    decreases k,
{
    if k > 0 {
        let j = (k - 1) as nat;
        lemma_tri_closed_form(j);
        assert(tri(k) == tri(j) + k);
        assert(2 * tri(j) == j * (j + 1));
        assert(j * (j + 1) + 2 * k == k * (k + 1)) by (nonlinear_arith)
            requires
                j + 1 == k,
        ;
    } else {
        assert(k * (k + 1) == 0) by (nonlinear_arith)
            requires
                k == 0,
        ;
    }
}

/// Triangular numbers grow with their argument.
pub proof fn lemma_tri_monotonic(j: nat, k: nat)
    requires
        j <= k,
    ensures
        tri(j) <= tri(k),
    decreases k,
{
    if j < k {
        lemma_tri_monotonic(j, (k - 1) as nat);
    }
}

/// A table of `levels` diagonals has `tri(levels)` entries, and this fits in a `usize` when
/// the product computed for its last diagonal does.
pub proof fn lemma_table_size(levels: nat)
    requires
        levels >= 1,
        (levels - 1) * levels <= usize::MAX,
    ensures
        tri(levels) <= usize::MAX,
        table_index(levels, 1) + 1 == tri(levels),
{
    lemma_tri_closed_form(levels);
    lemma_tri_closed_form((levels - 1) as nat);
    assert(tri(levels) == tri((levels - 1) as nat) + levels);
    assert(levels * (levels + 1) <= 2 * usize::MAX) by (nonlinear_arith)
        requires
            (levels - 1) * levels <= usize::MAX,
            levels >= 1,
    ;
}

/// The product computed for an earlier diagonal is no larger than for a later one.
pub proof fn lemma_diagonal_bound(level: nat, levels: nat)
    requires
        1 <= level <= levels,
    ensures
        (level - 1) * level <= (levels - 1) * levels,
        (level - 2) * (level - 1) <= (levels - 1) * levels,
{
    assert((level - 1) * level <= (levels - 1) * levels) by (nonlinear_arith)
        requires
            1 <= level <= levels,
    ;
    assert((level - 2) * (level - 1) <= (levels - 1) * levels) by (nonlinear_arith)
        requires
            1 <= level <= levels,
    ;
}

/// The `j`-th count on diagonal `level` (counting diagonals from one).
pub open spec fn diagonal_entry(level: nat, j: int) -> nat {
    partitions_count((j + 1) as nat, (level - j) as nat)
}

/// Every entry on the first `levels` diagonals lies before position `tri(levels)`.
pub proof fn lemma_table_index_bound(a: nat, b: nat, levels: nat)
    requires
        1 <= a,
        1 <= b,
        a + b - 1 <= levels,
    ensures
        table_index(a, b) < tri(levels),
{
    let d = (a + b - 2) as nat;
    assert(tri(d + 1) == tri(d) + d + 1);
    lemma_tri_monotonic(d + 1, levels);
}

/// Table positions tell pairs apart: two pairs with the same `table_index` are the same pair.
pub proof fn lemma_table_index_injective(a: nat, b: nat, c: nat, d: nat)
    requires
        1 <= a,
        1 <= b,
        1 <= c,
        1 <= d,
        table_index(a, b) == table_index(c, d),
    ensures
        a == c,
        b == d,
{
    let d1 = (a + b - 2) as nat;
    let d2 = (c + d - 2) as nat;
    assert(tri(d1 + 1) == tri(d1) + d1 + 1);
    assert(tri(d2 + 1) == tri(d2) + d2 + 1);
    if d1 < d2 {
        lemma_tri_monotonic(d1 + 1, d2);
    } else if d2 < d1 {
        lemma_tri_monotonic(d2 + 1, d1);
    }
}

/// The positions of the pairs on the first `levels` diagonals are exactly `0..tri(levels)`:
/// each pair lies below `tri(levels)` (`lemma_table_index_bound`) and each position below
/// it is the position of such a pair.
pub proof fn lemma_table_index_onto(levels: nat, i: nat)
    requires
        i < tri(levels),
    ensures
        exists|a: nat, b: nat|
            1 <= a && 1 <= b && a + b - 1 <= levels && #[trigger] table_index(a, b) == i,
    decreases levels,
{
    let l = (levels - 1) as nat;
    assert(tri(levels) == tri(l) + levels);
    if i < tri(l) {
        lemma_table_index_onto(l, i);
        let (a, b) = choose|a: nat, b: nat|
            1 <= a && 1 <= b && a + b - 1 <= l && #[trigger] table_index(a, b) == i;
        assert(table_index(a, b) == i);
    } else {
        let a = (i - tri(l) + 1) as nat;
        let b = (levels + 1 - a) as nat;
        assert(table_index(a, b) == i);
    }
}

/// Opening one group fewer while placing one item more never gives fewer ways.
proof fn lemma_count_along_diagonal(a: nat, b: nat)
    requires
        1 <= a,
        1 <= b,
    ensures
        partitions_count(a, b + 1) <= partitions_count(a + 1, b),
{
    assert(partitions_count(a + 1, b) == b * partitions_count(a, b) + partitions_count(a, b + 1));
}

/// Every count on diagonal `a + b - 1` is at most the Bell number at its end.
proof fn lemma_count_below_bell(a: nat, b: nat)
    requires
        1 <= a,
        1 <= b,
    ensures
        partitions_count(a, b) <= partitions_count((a + b - 1) as nat, 1),
    decreases b,
{
    if b > 1 {
        lemma_count_along_diagonal(a, (b - 1) as nat);
        lemma_count_below_bell(a + 1, (b - 1) as nat);
    }
}

/// More open groups never give fewer ways.
proof fn lemma_count_grows_with_groups(a: nat, b: nat)
    requires
        1 <= a,
    ensures
        partitions_count(a, b) <= partitions_count(a, b + 1),
    decreases a,
{
    if a > 1 {
        let x = partitions_count((a - 1) as nat, b);
        let y = partitions_count((a - 1) as nat, b + 1);
        lemma_count_grows_with_groups((a - 1) as nat, b);
        lemma_count_grows_with_groups((a - 1) as nat, b + 1);
        assert(b * x <= (b + 1) * y) by (nonlinear_arith)
            requires
                x <= y,
        ;
    }
}

/// Bell numbers at least double from one to the next, and from the fourth on they are at
/// least `(n - 1) * n`.
proof fn lemma_bell_growth(n: nat)
    requires
        n >= 1,
    ensures
        partitions_count(n + 1, 1) >= 2 * partitions_count(n, 1),
        n >= 4 ==> partitions_count(n, 1) >= (n - 1) * n,
    decreases n,
{
    lemma_count_grows_with_groups(n, 1);
    assert(partitions_count(n + 1, 1) == partitions_count(n, 1) + partitions_count(n, 2));
    if n == 4 {
        reveal_with_fuel(partitions_count, 5);
        assert(partitions_count(4, 1) == 15);
    } else if n > 4 {
        let l = (n - 1) as nat;
        lemma_bell_growth(l);
        assert(2 * ((l - 1) * l) >= (n - 1) * n) by (nonlinear_arith)
            requires
                l >= 4,
                n == l + 1,
        ;
    }
}

/// When the Bell number at the end of diagonal `levels` fits in a `usize`, every count on
/// the first `levels` diagonals fits, and so does the size of the table that holds them.
pub proof fn lemma_bell_bound(levels: nat)
    requires
        levels >= 1,
        partitions_count(levels, 1) <= usize::MAX,
    ensures
        counts_fit(levels),
        (levels - 1) * levels <= usize::MAX,
{
    assert forall|a: nat, b: nat|
        1 <= a && 1 <= b && a + b - 1 <= levels implies #[trigger] partitions_count(a, b)
        <= usize::MAX by {
        lemma_count_below_bell(a, b);
        lemma_bell_monotonic((a + b - 1) as nat, levels);
    }
    if levels >= 4 {
        lemma_bell_growth(levels);
    } else {
        assert((levels - 1) * levels <= 6) by (nonlinear_arith)
            requires
                1 <= levels <= 3,
        ;
    }
}

/// Bell numbers grow with their argument.
proof fn lemma_bell_monotonic(j: nat, k: nat)
    requires
        1 <= j <= k,
    ensures
        partitions_count(j, 1) <= partitions_count(k, 1),
    decreases k,
{
    if j < k {
        lemma_bell_monotonic(j, (k - 1) as nat);
        lemma_bell_growth((k - 1) as nat);
    }
}

/// The `k`-element subsequences of `s`, in lexicographic order of their positions.
pub open spec fn combos<T>(s: Seq<T>, k: nat) -> Seq<Seq<T>>
    decreases s.len(),
{
    if k == 0 {
        seq![Seq::empty()]
    } else if s.len() == 0 {
        Seq::empty()
    } else {
        combos(s.drop_first(), (k - 1) as nat).map_values(|c: Seq<T>| seq![s[0]] + c) + combos(
            s.drop_first(),
            k,
        )
    }
}

/// The subsequences of `s` with `from` to `to - 1` elements, by size, each size in the order
/// of `combos`.
pub open spec fn combos_range<T>(s: Seq<T>, from: nat, to: nat) -> Seq<Seq<T>>
    decreases to,
{
    if to <= from {
        Seq::empty()
    } else {
        combos_range(s, from, (to - 1) as nat) + combos(s, (to - 1) as nat)
    }
}

/// The binomial coefficient: the number of ways to choose `k` of `n` things.
pub open spec fn binomial(n: nat, k: nat) -> nat
    decreases n,
{
    if k == 0 {
        1
    } else if n == 0 {
        0
    } else {
        binomial((n - 1) as nat, (k - 1) as nat) + binomial((n - 1) as nat, k)
    }
}

/// The sum of `binomial(n, k)` over `k` in `from..to`.
pub open spec fn binomial_sum(n: nat, from: nat, to: nat) -> nat
    decreases to,
{
    if to <= from {
        0
    } else {
        binomial_sum(n, from, (to - 1) as nat) + binomial(n, (to - 1) as nat)
    }
}

/// There is no way to choose more things than there are.
pub proof fn lemma_binomial_zero(n: nat, k: nat)
    requires
        k > n,
    ensures
        binomial(n, k) == 0,
    decreases n,
{
    if n > 0 {
        lemma_binomial_zero((n - 1) as nat, (k - 1) as nat);
        lemma_binomial_zero((n - 1) as nat, k);
    }
}

/// Pascal's rule, summed: the first `t + 1` coefficients of row `n + 1` add up to the first
/// `t` and the first `t + 1` of row `n`.
proof fn lemma_binomial_sum_step(n: nat, t: nat)
    ensures
        binomial_sum(n + 1, 0, t + 1) == binomial_sum(n, 0, t) + binomial_sum(n, 0, t + 1),
    decreases t,
{
    if t > 0 {
        lemma_binomial_sum_step(n, (t - 1) as nat);
        assert(binomial(n + 1, t) == binomial(n, (t - 1) as nat) + binomial(n, t));
    } else {
        assert(binomial_sum(n + 1, 0, 0) == 0);
        assert(binomial_sum(n, 0, 0) == 0);
    }
}

/// Row `n` of Pascal's triangle adds up to `2^n`.
pub proof fn lemma_binomial_row_sum(n: nat)
    ensures
        binomial_sum(n, 0, n + 1) == pow(2, n),
    decreases n,
{
    reveal(pow);
    if n == 0 {
        assert(binomial_sum(0, 0, 0) == 0);
    } else {
        let m = (n - 1) as nat;
        lemma_binomial_row_sum(m);
        lemma_binomial_sum_step(m, n);
        lemma_binomial_zero(m, n);
        assert(binomial_sum(m, 0, n + 1) == binomial_sum(m, 0, n) + binomial(m, n));
    }
}

/// Leaving out the size zero takes away its one way.
proof fn lemma_binomial_sum_from_one(n: nat, t: nat)
    requires
        t >= 1,
    ensures
        binomial_sum(n, 0, t) == 1 + binomial_sum(n, 1, t),
    decreases t,
{
    if t > 1 {
        lemma_binomial_sum_from_one(n, (t - 1) as nat);
    } else {
        assert(binomial_sum(n, 0, 0) == 0);
        assert(binomial_sum(n, 1, 0) == 0);
    }
}

/// `combos(s, k)` has one entry for each way to choose `k` of the items of `s`, and each
/// entry has `k` items.
pub proof fn lemma_combos_count<T>(s: Seq<T>, k: nat)
    ensures
        combos(s, k).len() == binomial(s.len(), k),
        forall|i: int| 0 <= i < combos(s, k).len() ==> (#[trigger] combos(s, k)[i]).len() == k,
    decreases s.len(),
{
    if k > 0 && s.len() > 0 {
        let t = s.drop_first();
        lemma_combos_count(t, (k - 1) as nat);
        lemma_combos_count(t, k);
        let a = combos(t, (k - 1) as nat).map_values(|c: Seq<T>| seq![s[0]] + c);
        let b = combos(t, k);
        assert forall|i: int| 0 <= i < combos(s, k).len() implies (#[trigger] combos(
            s,
            k,
        )[i]).len() == k by {
            if i < a.len() {
                assert(combos(s, k)[i] == a[i]);
                assert(combos(t, (k - 1) as nat)[i].len() == k - 1);
            } else {
                assert(combos(s, k)[i] == b[i - a.len()]);
            }
        }
    }
}

/// `idx` lists positions below `n` in strictly increasing order.
pub open spec fn increasing_positions(idx: Seq<int>, n: nat) -> bool {
    &&& forall|i: int, j: int| 0 <= i < j < idx.len() ==> idx[i] < idx[j]
    &&& forall|i: int| 0 <= i < idx.len() ==> 0 <= #[trigger] idx[i] < n
}

/// The items of `s` at the positions `idx`, in that order.
pub open spec fn pick<T>(s: Seq<T>, idx: Seq<int>) -> Seq<T> {
    Seq::new(idx.len(), |i: int| s[idx[i]])
}

/// Every choice of items of `s`, taken at increasing positions, is listed in `combos`.
pub proof fn lemma_combos_complete<T>(s: Seq<T>, idx: Seq<int>)
    requires
        increasing_positions(idx, s.len()),
    ensures
        combos(s, idx.len()).contains(pick(s, idx)),
    decreases s.len(),
{
    let k = idx.len();
    if k == 0 {
        assert(pick(s, idx) =~= Seq::<T>::empty());
        assert(combos(s, 0)[0] == pick(s, idx));
    } else {
        assert(0 <= idx[0] < s.len());
        let t = s.drop_first();
        let a = combos(t, (k - 1) as nat).map_values(|c: Seq<T>| seq![s[0]] + c);
        let b = combos(t, k);
        assert(combos(s, k) == a + b);
        if idx[0] == 0 {
            let idx2 = Seq::new((k - 1) as nat, |i: int| idx[i + 1] - 1);
            assert forall|i: int| 0 <= i < idx2.len() implies 0 <= #[trigger] idx2[i] < t.len() by {
                assert(idx[0] < idx[i + 1]);
            }
            assert forall|i: int, j: int| 0 <= i < j < idx2.len() implies idx2[i] < idx2[j] by {
                assert(idx[i + 1] < idx[j + 1]);
            }
            lemma_combos_complete(t, idx2);
            let c = pick(t, idx2);
            let ck = combos(t, (k - 1) as nat);
            assert(ck.contains(c));
            let i = choose|i: int| 0 <= i < ck.len() && ck[i] == c;
            assert(seq![s[0]] + c =~= pick(s, idx)) by {
                assert forall|j: int| 0 < j < k implies (seq![s[0]] + c)[j] == pick(s, idx)[j] by {
                    assert(idx[0] < idx[j]);
                }
            }
            assert((a + b)[i] == pick(s, idx));
        } else {
            let idx2 = Seq::new(k, |i: int| idx[i] - 1);
            assert forall|i: int| 0 <= i < idx2.len() implies 0 <= #[trigger] idx2[i] < t.len() by {
                if i > 0 {
                    assert(idx[0] < idx[i]);
                }
            }
            assert forall|i: int, j: int| 0 <= i < j < idx2.len() implies idx2[i] < idx2[j] by {
                assert(idx[i] < idx[j]);
            }
            lemma_combos_complete(t, idx2);
            let c = pick(t, idx2);
            assert(c =~= pick(s, idx)) by {
                assert forall|j: int| 0 <= j < k implies c[j] == pick(s, idx)[j] by {
                    if j > 0 {
                        assert(idx[0] < idx[j]);
                    }
                }
            }
            let i = choose|i: int| 0 <= i < b.len() && b[i] == c;
            assert((a + b)[a.len() + i] == pick(s, idx));
        }
    }
}

/// The only way to choose all the items of `s` is `s` itself.
pub proof fn lemma_combos_all<T>(s: Seq<T>)
    ensures
        combos(s, s.len()) == seq![s],
    decreases s.len(),
{
    if s.len() > 0 {
        let t = s.drop_first();
        lemma_combos_all(t);
        lemma_combos_count(t, s.len());
        lemma_binomial_zero(t.len(), s.len());
        assert(combos(t, s.len()) =~= Seq::<Seq<T>>::empty());
        assert(seq![s[0]] + t =~= s);
        assert(combos(s, s.len()) =~= seq![s]);
    } else {
        assert(s =~= Seq::<T>::empty());
        assert(combos(s, 0) =~= seq![s]);
    }
}

/// `combos_range(s, from, to)` has one entry for each way to choose between `from` and
/// `to - 1` of the items of `s`, and holds every combination of each of those sizes.
pub proof fn lemma_combos_range<T>(s: Seq<T>, from: nat, to: nat)
    ensures
        combos_range(s, from, to).len() == binomial_sum(s.len(), from, to),
        forall|k: nat, c: Seq<T>|
            from <= k < to && #[trigger] combos(s, k).contains(c) ==> combos_range(
                s,
                from,
                to,
            ).contains(c),
    decreases to,
{
    if to > from {
        let m = (to - 1) as nat;
        lemma_combos_range(s, from, m);
        lemma_combos_count(s, m);
        let a = combos_range(s, from, m);
        let b = combos(s, m);
        assert forall|k: nat, c: Seq<T>|
            from <= k < to && #[trigger] combos(s, k).contains(c) implies combos_range(
            s,
            from,
            to,
        ).contains(c) by {
            if k < m {
                assert(a.contains(c));
                let i = choose|i: int| 0 <= i < a.len() && a[i] == c;
                assert((a + b)[i] == c);
            } else {
                let i = choose|i: int| 0 <= i < b.len() && b[i] == c;
                assert((a + b)[a.len() + i] == c);
            }
        }
    }
}

/// `all_combinations` of `n` items lists `2^n - 1` combinations: every nonempty one, of
/// every size, the whole list among them.
pub proof fn lemma_all_combinations<T>(s: Seq<T>)
    ensures
        combos_range(s, 1, s.len() + 1).len() == pow(2, s.len()) - 1,
        forall|k: nat, c: Seq<T>|
            1 <= k <= s.len() && #[trigger] combos(s, k).contains(c) ==> combos_range(
                s,
                1,
                s.len() + 1,
            ).contains(c),
        s.len() >= 1 ==> combos_range(s, 1, s.len() + 1).contains(s),
{
    lemma_combos_range(s, 1, s.len() + 1);
    lemma_binomial_row_sum(s.len());
    lemma_binomial_sum_from_one(s.len(), s.len() + 1);
    if s.len() >= 1 {
        lemma_combos_all(s);
        assert(combos(s, s.len())[0] == s);
        assert(combos(s, s.len()).contains(s));
    }
}

/// `all_subset_combinations` of `n >= 1` items lists `2^n - 2` combinations: every one that
/// is neither empty nor all of the items, of every size in between.
pub proof fn lemma_all_subset_combinations<T>(s: Seq<T>)
    requires
        s.len() >= 1,
    ensures
        combos_range(s, 1, s.len()).len() == pow(2, s.len()) - 2,
        forall|k: nat, c: Seq<T>|
            1 <= k < s.len() && #[trigger] combos(s, k).contains(c) ==> combos_range(
                s,
                1,
                s.len(),
            ).contains(c),
{
    lemma_combos_range(s, 1, s.len());
    lemma_binomial_row_sum(s.len());
    lemma_binomial_sum_from_one(s.len(), s.len() + 1);
    lemma_combos_count(s, s.len());
    lemma_combos_all(s);
}

/// The contents of a list of vectors.
pub open spec fn vec_views<T>(v: Seq<Vec<T>>) -> Seq<Seq<T>> {
    v.map_values(|x: Vec<T>| x@)
}

/// `Itertools::combinations` over the items of `items`, collected. Claims, from itertools'
/// source: the `k`-element combinations of the items, each in input order, listed in
/// lexicographic order of their positions (one empty combination when `k` is zero, none when
/// `k` exceeds the length). Copies of the items stand in the combinations, as `T` is `Copy`.
#[verifier::external_body]
fn k_combinations<T: Copy>(items: &Vec<T>, k: usize) -> (r: Vec<Vec<T>>)
    ensures
        vec_views(r@) == combos(items@, k as nat),
{
    items.iter().cloned().combinations(k).collect()
}

/// Appends the contents of `more` to `acc`.
fn append_all<T>(acc: &mut Vec<Vec<T>>, more: Vec<Vec<T>>)
    ensures
        vec_views(final(acc)@) == vec_views(old(acc)@) + vec_views(more@),
{
    let mut more = more;
    let ghost a0 = vec_views(acc@);
    let ghost m0 = vec_views(more@);
    acc.append(&mut more);
    proof {
        assert(vec_views(acc@) =~= a0 + m0);
    }
}

/// The combinations of `items` with `from` up to `to - 1` elements, smallest first.
fn combinations_between<T: Copy>(items: &Vec<T>, from: usize, to: usize) -> (r: Vec<Vec<T>>)
    ensures
        vec_views(r@) == combos_range(items@, from as nat, to as nat),
{
    let mut r: Vec<Vec<T>> = Vec::new();
    if to <= from {
        proof {
            assert(vec_views(r@) =~= Seq::<Seq<T>>::empty());
        }
        return r;
    }
    let mut k = from;
    proof {
        assert(vec_views(r@) =~= combos_range(items@, from as nat, from as nat));
    }
    while k < to
        invariant
            from <= k <= to,
            vec_views(r@) == combos_range(items@, from as nat, k as nat),
        decreases to - k,
    {
        let c = k_combinations(items, k);
        append_all(&mut r, c);
        k = k + 1;
    }
    r
}

/// The number of group labels `a` uses: one more than its largest label, or zero when empty.
pub open spec fn labels_used(a: Seq<usize>) -> nat
    decreases a.len(),
{
    if a.len() == 0 {
        0
    } else {
        let m = labels_used(a.drop_last());
        if a.last() + 1 > m {
            (a.last() + 1) as nat
        } else {
            m
        }
    }
}

/// The labels in `s` each either reuse one of the `m` labels in use or open the next one.
pub open spec fn valid_from(s: Seq<usize>, m: nat) -> bool
    decreases s.len(),
{
    s.len() == 0 || (s[0] <= m && valid_from(s.drop_first(), next_used(s[0] as nat, m)))
}

/// The labels in use after placing `c` when `m` were in use.
pub open spec fn next_used(c: nat, m: nat) -> nat {
    if c == m {
        m + 1
    } else {
        m
    }
}

/// `a` labels positions with groups, numbering groups in order of first appearance: a
/// restricted growth string, standing for one partition of the positions.
pub open spec fn is_growth_string(a: Seq<usize>) -> bool {
    valid_from(a, 0)
}

/// The number of ways to label `r` more positions when `m` labels are in use.
pub open spec fn ways(r: nat, m: nat) -> nat {
    partitions_count(r + 1, m)
}

/// The position of `s` among the labelings of its length from state `m`, in lexicographic
/// order.
pub open spec fn rank_from(s: Seq<usize>, m: nat) -> nat
    decreases s.len(),
{
    if s.len() == 0 {
        0
    } else {
        s[0] as nat * ways((s.len() - 1) as nat, m) + rank_from(
            s.drop_first(),
            next_used(s[0] as nat, m),
        )
    }
}

/// `r` zero labels.
pub open spec fn zeros(r: nat) -> Seq<usize> {
    Seq::new(r, |i: int| 0usize)
}

/// The lexicographically next labeling after `s` from state `m`, if there is one: the last
/// label that can grow grows, and the labels after it become zero.
pub open spec fn next_from(s: Seq<usize>, m: nat) -> Option<Seq<usize>>
    decreases s.len(),
{
    if s.len() == 0 {
        None
    } else {
        match next_from(s.drop_first(), next_used(s[0] as nat, m)) {
            Some(t) => Some(seq![s[0]] + t),
            None => if (s[0] as nat) < m {
                Some(seq![(s[0] + 1) as usize] + zeros((s.len() - 1) as nat))
            } else {
                None
            },
        }
    }
}

/// The `t`-th labeling of `n` positions, counting from all zeros.
pub open spec fn nth_growth_string(n: nat, t: nat) -> Seq<usize>
    decreases t,
{
    if t == 0 {
        zeros(n)
    } else {
        match next_from(nth_growth_string(n, (t - 1) as nat), 0) {
            Some(x) => x,
            None => zeros(n),
        }
    }
}

/// `ways` unfolds by the choice for the next position.
pub proof fn lemma_ways_step(r: nat, m: nat)
    requires
        r >= 1,
    ensures
        ways(r, m) == m * ways((r - 1) as nat, m) + ways((r - 1) as nat, m + 1),
{
}

/// A labeling's rank is below the number of labelings.
pub proof fn lemma_rank_bound(s: Seq<usize>, m: nat)
    requires
        valid_from(s, m),
    ensures
        rank_from(s, m) < ways(s.len(), m),
    decreases s.len(),
{
    if s.len() > 0 {
        let r = (s.len() - 1) as nat;
        let c = s[0] as nat;
        let m2 = next_used(c, m);
        lemma_rank_bound(s.drop_first(), m2);
        lemma_ways_step(s.len(), m);
        let w = ways(r, m);
        if c < m {
            assert(c * w + w <= m * w) by (nonlinear_arith)
                requires
                    c < m,
            ;
        }
    }
}

/// Zeros are valid from any state and come first.
pub proof fn lemma_zeros(r: nat, m: nat)
    ensures
        valid_from(zeros(r), m),
        rank_from(zeros(r), m) == 0,
        zeros(r).len() == r,
    decreases r,
{
    if r > 0 {
        assert(zeros(r).drop_first() =~= zeros((r - 1) as nat));
        lemma_zeros((r - 1) as nat, next_used(0, m));
    }
}

/// The next labeling is valid and one rank higher; when there is none, `s` has the last
/// rank.
pub proof fn lemma_next_rank(s: Seq<usize>, m: nat)
    requires
        valid_from(s, m),
        m + s.len() <= usize::MAX,
    ensures
        next_from(s, m) matches Some(t) ==> valid_from(t, m) && t.len() == s.len() && rank_from(
            t,
            m,
        ) == rank_from(s, m) + 1,
        next_from(s, m) is None ==> rank_from(s, m) + 1 == ways(s.len(), m),
    decreases s.len(),
{
    if s.len() > 0 {
        let r = (s.len() - 1) as nat;
        let c = s[0] as nat;
        let m2 = next_used(c, m);
        let tail = s.drop_first();
        lemma_next_rank(tail, m2);
        lemma_ways_step(s.len(), m);
        match next_from(tail, m2) {
            Some(t2) => {
                let t = seq![s[0]] + t2;
                assert(t.drop_first() =~= t2);
            },
            None => {
                if c < m {
                    let t = seq![(s[0] + 1) as usize] + zeros(r);
                    assert(t.drop_first() =~= zeros(r));
                    assert(t[0] == c + 1);
                    lemma_zeros(r, next_used(c + 1, m));
                    let w = ways(r, m);
                    assert(c * w + w == (c + 1) * w) by (nonlinear_arith);
                    if c + 1 == m {
                        assert(rank_from(t, m) == (c + 1) * w);
                    }
                }
            },
        }
    } else {
        assert(ways(0, m) == 1);
    }
}

/// Labelings with the same rank from the same state are the same.
pub proof fn lemma_rank_injective(s: Seq<usize>, t: Seq<usize>, m: nat)
    requires
        valid_from(s, m),
        valid_from(t, m),
        s.len() == t.len(),
        rank_from(s, m) == rank_from(t, m),
    ensures
        s == t,
    decreases s.len(),
{
    if s.len() == 0 {
        assert(s =~= t);
    } else {
        let r = (s.len() - 1) as nat;
        let w = ways(r, m);
        let a = s[0] as nat;
        let b = t[0] as nat;
        lemma_rank_bound(s.drop_first(), next_used(a, m));
        lemma_rank_bound(t.drop_first(), next_used(b, m));
        if a < b {
            assert(a * w + w <= b * w) by (nonlinear_arith)
                requires
                    a < b,
            ;
            assert(false);
        } else if b < a {
            assert(b * w + w <= a * w) by (nonlinear_arith)
                requires
                    b < a,
            ;
            assert(false);
        } else {
            lemma_rank_injective(s.drop_first(), t.drop_first(), next_used(a, m));
            assert(s =~= t) by {
                assert(s =~= seq![s[0]] + s.drop_first());
                assert(t =~= seq![t[0]] + t.drop_first());
            }
        }
    }
}

/// The `t`-th labeling, for `t` below the number of labelings, is a valid labeling of rank
/// `t`.
pub proof fn lemma_nth_growth_string(n: nat, t: nat)
    requires
        t < ways(n, 0),
        n <= usize::MAX,
    ensures
        is_growth_string(nth_growth_string(n, t)),
        nth_growth_string(n, t).len() == n,
        rank_from(nth_growth_string(n, t), 0) == t,
    decreases t,
{
    if t == 0 {
        lemma_zeros(n, 0);
    } else {
        lemma_nth_growth_string(n, (t - 1) as nat);
        lemma_next_rank(nth_growth_string(n, (t - 1) as nat), 0);
    }
}

/// Every labeling of `n` positions is the one numbered by its rank, which is below the
/// number of labelings.
pub proof fn lemma_growth_string_listed(b: Seq<usize>)
    requires
        is_growth_string(b),
        b.len() <= usize::MAX,
    ensures
        rank_from(b, 0) < ways(b.len(), 0),
        nth_growth_string(b.len(), rank_from(b, 0)) == b,
{
    let n = b.len();
    let t = rank_from(b, 0);
    lemma_rank_bound(b, 0);
    lemma_nth_growth_string(n, t);
    lemma_rank_injective(nth_growth_string(n, t), b, 0);
}

/// The labelings numbered below the count are all different.
pub proof fn lemma_growth_strings_distinct(n: nat, t1: nat, t2: nat)
    requires
        t1 < ways(n, 0),
        t2 < ways(n, 0),
        t1 != t2,
        n <= usize::MAX,
    ensures
        nth_growth_string(n, t1) != nth_growth_string(n, t2),
{
    lemma_nth_growth_string(n, t1);
    lemma_nth_growth_string(n, t2);
}

/// The number of labelings of `n >= 1` positions is the number of partitions of an
/// `n`-element set.
pub proof fn lemma_ways_is_partition_count(n: nat)
    requires
        n >= 1,
    ensures
        ways(n, 0) == partitions_count(n, 1),
{
}

/// The largest label in `s`, or zero when empty.
pub open spec fn max_label(s: Seq<usize>) -> nat
    decreases s.len(),
{
    if s.len() == 0 {
        0
    } else {
        let m = max_label(s.drop_last());
        if s.last() > m {
            s.last() as nat
        } else {
            m
        }
    }
}

/// For a nonempty labeling, the labels used are one more than the largest label.
pub proof fn lemma_max_label(s: Seq<usize>)
    requires
        s.len() >= 1,
    ensures
        max_label(s) + 1 == labels_used(s),
    decreases s.len(),
{
    if s.len() > 1 {
        lemma_max_label(s.drop_last());
    } else {
        assert(s.drop_last().len() == 0);
        assert(max_label(s.drop_last()) == 0);
        assert(labels_used(s.drop_last()) == 0);
    }
}

/// Along a growth string, the labels in use after `i` positions are at most `i`, the
/// remaining labels are valid from there, and the label at `i` is at most the labels in
/// use before it.
pub proof fn lemma_growth_prefix(a: Seq<usize>, i: int)
    requires
        is_growth_string(a),
        0 <= i <= a.len(),
    ensures
        valid_from(a.skip(i), labels_used(a.take(i))),
        labels_used(a.take(i)) <= i,
        i < a.len() ==> a[i] <= labels_used(a.take(i)),
        i < a.len() ==> labels_used(a.take(i + 1)) == next_used(
            a[i] as nat,
            labels_used(a.take(i)),
        ),
    decreases i,
{
    if i == 0 {
        assert(a.skip(0) =~= a);
        assert(a.take(0).len() == 0);
    } else {
        lemma_growth_prefix(a, i - 1);
        let l = labels_used(a.take(i - 1));
        assert(a.skip(i - 1).drop_first() =~= a.skip(i));
        assert(a.take(i).drop_last() =~= a.take(i - 1));
        assert(a.skip(i - 1)[0] == a[i - 1]);
    }
    if i < a.len() {
        let l = labels_used(a.take(i));
        assert(valid_from(a.skip(i), l));
        assert(a.skip(i).len() > 0);
        assert(a.skip(i)[0] == a[i]);
        assert(a.skip(i)[0] <= l);
        assert(a.take(i + 1).drop_last() =~= a.take(i));
        assert(a.take(i + 1).last() == a[i]);
    }
}

/// A next labeling found at position `i` is the next labeling of the whole.
pub proof fn lemma_next_lift(a: Seq<usize>, i: int, j: int, t: Seq<usize>)
    requires
        is_growth_string(a),
        0 <= j <= i <= a.len(),
        next_from(a.skip(i), labels_used(a.take(i))) == Some(t),
    ensures
        next_from(a.skip(j), labels_used(a.take(j))) == Some(a.subrange(j, i) + t),
    decreases i - j,
{
    if j == i {
        assert(a.subrange(j, i) + t =~= t);
    } else {
        lemma_next_lift(a, i, j + 1, t);
        lemma_growth_prefix(a, j);
        let s = a.skip(j);
        assert(s.drop_first() =~= a.skip(j + 1));
        assert(s[0] == a[j]);
        assert(seq![a[j]] + (a.subrange(j + 1, i) + t) =~= a.subrange(j, i) + t);
    }
}

/// The items at the positions labeled `b`, in order.
pub open spec fn block_of<T>(items: Seq<T>, a: Seq<usize>, b: nat) -> Seq<T>
    decreases items.len(),
{
    if items.len() == 0 || a.len() == 0 {
        Seq::empty()
    } else {
        let rest = block_of(items.drop_last(), a.drop_last(), b);
        if a.last() == b {
            rest.push(items.last())
        } else {
            rest
        }
    }
}

/// The partition of `items` that the labeling `a` stands for: one block per label in use,
/// in label order, each holding its items in order.
pub open spec fn blocks<T>(items: Seq<T>, a: Seq<usize>) -> Seq<Seq<T>> {
    Seq::new(labels_used(a), |b: int| block_of(items, a, b as nat))
}

/// The positions `0..n`.
pub open spec fn positions(n: nat) -> Seq<int> {
    Seq::new(n, |i: int| i)
}

/// A position is in the block of the label it carries, and in no other.
pub proof fn lemma_block_membership(a: Seq<usize>, b: nat, i: int)
    ensures
        block_of(positions(a.len()), a, b).contains(i) <==> (0 <= i < a.len() && a[i] == b),
    decreases a.len(),
{
    if a.len() > 0 {
        let n = a.len();
        assert(positions(n).drop_last() =~= positions((n - 1) as nat));
        lemma_block_membership(a.drop_last(), b, i);
        let rest = block_of(positions((n - 1) as nat), a.drop_last(), b);
        if a.last() == b {
            let pushed = rest.push(n - 1);
            assert(pushed.contains(i) <==> (rest.contains(i) || i == n - 1)) by {
                if i == n - 1 {
                    assert(pushed[rest.len() as int] == i);
                }
                if pushed.contains(i) && i != n - 1 {
                    let x = choose|x: int| 0 <= x < pushed.len() && #[trigger] pushed[x] == i;
                    assert(rest[x] == i);
                }
                if rest.contains(i) {
                    let x = choose|x: int| 0 <= x < rest.len() && #[trigger] rest[x] == i;
                    assert(pushed[x] == i);
                }
            }
        }
    } else {
        assert(positions(0) =~= Seq::<int>::empty());
    }
}

/// A growth string labels every position with a label in use, and every label in use labels
/// some position: the blocks it makes are nonempty and cover every position once.
pub proof fn lemma_blocks_partition(a: Seq<usize>)
    requires
        is_growth_string(a),
    ensures
        forall|i: int| 0 <= i < a.len() ==> a[i] < labels_used(a),
        forall|b: nat|
            b < labels_used(a) ==> #[trigger] block_of(positions(a.len()), a, b).len() > 0,
        forall|b: nat, i: int|
            #[trigger] block_of(positions(a.len()), a, b).contains(i) <==> (0 <= i < a.len() && a[i]
                == b),
{
    assert forall|b: nat, i: int|
        #[trigger] block_of(positions(a.len()), a, b).contains(i) <==> (0 <= i < a.len() && a[i]
            == b) by {
        lemma_block_membership(a, b, i);
    }
    lemma_labels_appear(a, a.len() as int);
    assert(a.take(a.len() as int) =~= a);
    assert forall|i: int| 0 <= i < a.len() implies a[i] < labels_used(a) by {
        lemma_growth_prefix(a, i);
        lemma_labels_grow(a, i + 1, a.len() as int);
    }
    assert forall|b: nat| b < labels_used(a) implies #[trigger] block_of(
        positions(a.len()),
        a,
        b,
    ).len() > 0 by {
        assert(label_appears(a, a.len() as int, b));
        let i = choose|i: int| 0 <= i < a.len() && a[i] == b;
        lemma_block_membership(a, b, i);
    }
}

/// Different growth strings of one length make different partitions of the positions.
pub proof fn lemma_blocks_injective(a: Seq<usize>, b: Seq<usize>)
    requires
        is_growth_string(a),
        is_growth_string(b),
        a.len() == b.len(),
        blocks(positions(a.len()), a) == blocks(positions(b.len()), b),
    ensures
        a == b,
{
    lemma_blocks_partition(a);
    lemma_blocks_partition(b);
    let pos = positions(a.len());
    assert forall|i: int| 0 <= i < a.len() implies a[i] == b[i] by {
        let l = a[i] as nat;
        assert(block_of(pos, a, l).contains(i));
        assert(blocks(pos, a)[l as int] == block_of(pos, a, l));
        assert(blocks(pos, a).len() == labels_used(a));
        assert(blocks(pos, b).len() == labels_used(b));
        assert(l < labels_used(b));
        assert(blocks(pos, b)[l as int] == block_of(pos, b, l));
        assert(block_of(pos, b, l).contains(i));
    }
    assert(a =~= b);
}

/// The enumeration of the partitions of `n` positions lists no partition twice.
pub proof fn lemma_partitions_distinct(n: nat, t1: nat, t2: nat)
    requires
        t1 < ways(n, 0),
        t2 < ways(n, 0),
        t1 != t2,
        n <= usize::MAX,
    ensures
        blocks(positions(n), nth_growth_string(n, t1)) != blocks(
            positions(n),
            nth_growth_string(n, t2),
        ),
{
    lemma_growth_strings_distinct(n, t1, t2);
    lemma_nth_growth_string(n, t1);
    lemma_nth_growth_string(n, t2);
    if blocks(positions(n), nth_growth_string(n, t1)) == blocks(
        positions(n),
        nth_growth_string(n, t2),
    ) {
        lemma_blocks_injective(nth_growth_string(n, t1), nth_growth_string(n, t2));
    }
}

/// The labels in use never shrink along a growth string.
pub proof fn lemma_labels_grow(a: Seq<usize>, i: int, j: int)
    requires
        is_growth_string(a),
        0 <= i <= j <= a.len(),
    ensures
        labels_used(a.take(i)) <= labels_used(a.take(j)),
    decreases j - i,
{
    if i < j {
        lemma_labels_grow(a, i, j - 1);
        lemma_growth_prefix(a, j - 1);
    }
}

/// Label `b` labels one of the first `i` positions.
pub open spec fn label_appears(a: Seq<usize>, i: int, b: nat) -> bool {
    exists|x: int| 0 <= x < i && a[x] == b
}

/// Every label in use after `i` positions labels one of them.
pub proof fn lemma_labels_appear(a: Seq<usize>, i: int)
    requires
        is_growth_string(a),
        0 <= i <= a.len(),
    ensures
        forall|b: nat| b < labels_used(a.take(i)) ==> #[trigger] label_appears(a, i, b),
    decreases i,
{
    if i > 0 {
        lemma_labels_appear(a, i - 1);
        lemma_growth_prefix(a, i - 1);
        assert forall|b: nat| b < labels_used(a.take(i)) implies #[trigger] label_appears(a, i, b) by {
            if b < labels_used(a.take(i - 1)) {
                assert(label_appears(a, i - 1, b));
                let x = choose|x: int| 0 <= x < i - 1 && a[x] == b;
                assert(0 <= x < i && a[x] == b);
            } else {
                assert(a[i - 1] == b);
            }
        }
    } else {
        assert(a.take(0).len() == 0);
    }
}

/// Steps `a` to the next growth string, as the enumeration of partitions does: from the
/// back, a label that can grow grows and the labels after it reset to zero.
fn advance(a: &mut Vec<usize>)
    requires
        is_growth_string(old(a)@),
        old(a)@.len() >= 1,
    ensures
        final(a)@.len() == old(a)@.len(),
        next_from(old(a)@, 0) matches Some(t) ==> final(a)@ == t,
{
    let ghost a0 = a@;
    let n = a.len();
    let mut i = n;
    proof {
        assert(a0.skip(n as int) =~= Seq::<usize>::empty());
        assert(a@ =~= a0.take(n as int) + zeros(0));
    }
    while i > 0
        invariant_except_break
            i <= n,
            n == a0.len(),
            n >= 1,
            is_growth_string(a0),
            a@ == a0.take(i as int) + zeros((n - i) as nat),
            next_from(a0.skip(i as int), labels_used(a0.take(i as int))) is None,
            i == 0 ==> next_from(a0, 0) is None,
        ensures
            a@.len() == n,
            next_from(a0, 0) matches Some(t) ==> a@ == t,
        decreases i,
    {
        i = i - 1;
        let mut mx: usize = 0;
        let mut j: usize = 0;
        while j < i
            invariant
                j <= i < n,
                n == a0.len(),
                a@ == a0.take((i + 1) as int) + zeros((n - i - 1) as nat),
                mx == max_label(a0.take(j as int)),
            decreases i - j,
        {
            proof {
                assert(a0.take(j + 1).drop_last() =~= a0.take(j as int));
                assert(a@[j as int] == a0[j as int]);
            }
            if a[j] > mx {
                mx = a[j];
            }
            j = j + 1;
        }
        proof {
            lemma_growth_prefix(a0, i as int);
            lemma_growth_prefix(a0, (i + 1) as int);
            if i > 0 {
                lemma_max_label(a0.take(i as int));
            }
            assert(a@[i as int] == a0[i as int]);
            let s = a0.skip(i as int);
            assert(s.drop_first() =~= a0.skip(i + 1));
            assert(s[0] == a0[i as int]);
        }
        let bound = mx + 1;
        let cur = a[i] + 1;
        a.set(i, cur);
        if cur > bound {
            a.set(i, 0);
            proof {
                assert(a@ =~= a0.take(i as int) + zeros((n - i) as nat));
                if i == 0 {
                    assert(a0.skip(0) =~= a0);
                    assert(a0.take(0).len() == 0);
                }
            }
        } else {
            proof {
                let t = seq![cur] + zeros((n - i - 1) as nat);
                if i > 0 {
                    lemma_next_lift(a0, i as int, 0, t);
                    assert(a0.skip(0) =~= a0);
                    assert(a0.take(0).len() == 0);
                    assert(a@ =~= a0.subrange(0, i as int) + t);
                } else {
                    assert(a0[0] == 0) by {
                        assert(a0.take(0).len() == 0);
                    }
                    assert(a0.skip(0) =~= a0);
                    assert(a0.take(0).len() == 0);
                }
            }
            break;
        }
    }
    proof {
        if i == 0 {
            assert(a0.skip(0) =~= a0);
            assert(a0.take(0).len() == 0);
        }
    }
}

/// The blocks that the growth string `a` makes of `items`.
fn collect_blocks<T: Copy>(items: &Vec<T>, a: &Vec<usize>) -> (v: Vec<Vec<T>>)
    requires
        is_growth_string(a@),
        a@.len() == items@.len(),
        a@.len() >= 1,
    ensures
        vec_views(v@) == blocks(items@, a@),
{
    let n = items.len();
    let mut v: Vec<Vec<T>> = Vec::new();
    let mut b: usize = 0;
    while b < n
        invariant
            b <= n,
            v@.len() == b,
            forall|x: int| 0 <= x < b ==> (#[trigger] v@[x])@ == Seq::<T>::empty(),
        decreases n - b,
    {
        v.push(Vec::new());
        b = b + 1;
    }
    let mut mx: usize = 0;
    let mut i: usize = 0;
    while i < n
        invariant
            i <= n,
            n == items@.len(),
            n == a@.len(),
            is_growth_string(a@),
            v@.len() == n,
            forall|x: int|
                0 <= x < n ==> (#[trigger] v@[x])@ == block_of(
                    items@.take(i as int),
                    a@.take(i as int),
                    x as nat,
                ),
            mx == max_label(a@.take(i as int)),
        decreases n - i,
    {
        proof {
            lemma_growth_prefix(a@, i as int);
            assert(items@.take(i + 1).drop_last() =~= items@.take(i as int));
            assert(a@.take(i + 1).drop_last() =~= a@.take(i as int));
        }
        let idx = a[i];
        let ghost before = v@;
        v[idx].push(items[i]);
        proof {
            assert forall|x: int| 0 <= x < n implies (#[trigger] v@[x])@ == block_of(
                items@.take(i + 1),
                a@.take(i + 1),
                x as nat,
            ) by {
                if x != idx {
                    assert(v@[x] == before[x]);
                }
            }
        }
        if idx > mx {
            mx = idx;
        }
        i = i + 1;
    }
    proof {
        assert(items@.take(n as int) =~= items@);
        assert(a@.take(n as int) =~= a@);
        lemma_max_label(a@);
        lemma_growth_prefix(a@, n as int);
    }
    v.truncate(mx + 1);
    proof {
        assert(vec_views(v@) =~= blocks(items@, a@));
    }
    v
}

/// The enumeration of the partitions of `n` items can be carried out: there is at least one
/// item, and the partition counts it consults fit in machine integers.
pub open spec fn partitions_enumerable(n: nat) -> bool {
    &&& 1 <= n
    &&& n + 1 <= u32::MAX
    &&& (n - 1) * n <= usize::MAX
    &&& counts_fit(n)
}

/// Combinations and partitions of a list of items.
pub trait IterUtil<T>: Sized {
    /// The items, in order.
    spec fn items(&self) -> Seq<T>;

    /// All nonempty combinations of the items, by size, each size in lexicographic order of
    /// positions.
    fn all_combinations(self) -> (r: Vec<Vec<T>>)
        ensures
            vec_views(r@) == combos_range(self.items(), 1, self.items().len() + 1),
    ;

    /// All combinations of the items that are neither empty nor all of them, by size, each
    /// size in lexicographic order of positions.
    fn all_subset_combinations(self) -> (r: Vec<Vec<T>>)
        ensures
            vec_views(r@) == combos_range(self.items(), 1, self.items().len()),
    ;

    /// All partitions of the items into nonempty blocks, one for each partition of their
    /// positions: the `t`-th is the one that the `t`-th growth string stands for.
    fn all_partitions(self) -> (r: Vec<Vec<Vec<T>>>)
        requires
            partitions_enumerable(self.items().len()),
        ensures
            r@.len() == partitions_count(self.items().len(), 1),
            forall|t: int|
                0 <= t < r@.len() ==> vec_views(#[trigger] r@[t]@) == blocks(
                    self.items(),
                    nth_growth_string(self.items().len(), t as nat),
                ),
    ;
}

impl<T: Copy> IterUtil<T> for Vec<T> {
    open spec fn items(&self) -> Seq<T> {
        self@
    }

    fn all_combinations(self) -> (r: Vec<Vec<T>>) {
        let n = self.len();
        let mut r = combinations_between(&self, 1, n);
        if n >= 1 {
            let last = k_combinations(&self, n);
            append_all(&mut r, last);
        } else {
            proof {
                assert(combos_range(self@, 1, 1) =~= Seq::<Seq<T>>::empty());
            }
        }
        r
    }

    fn all_subset_combinations(self) -> (r: Vec<Vec<T>>) {
        let n = self.len();
        combinations_between(&self, 1, n)
    }

    fn all_partitions(self) -> (r: Vec<Vec<Vec<T>>>) {
        let n = self.len();
        let mut assignments: Vec<usize> = Vec::new();
        let mut i: usize = 0;
        while i < n
            invariant
                i <= n,
                assignments@ == zeros(i as nat),
            decreases n - i,
        {
            assignments.push(0);
            proof {
                assert(assignments@ =~= zeros((i + 1) as nat));
            }
            i = i + 1;
        }
        let mut table = PartitionsTable::new();
        let arrangements: usize = table.num_partitions(n as u32, 1);
        proof {
            lemma_ways_is_partition_count(n as nat);
        }
        let mut result: Vec<Vec<Vec<T>>> = Vec::new();
        let mut t: usize = 0;
        while t < arrangements
            invariant
                n == self@.len(),
                n >= 1,
                arrangements == ways(n as nat, 0),
                t <= arrangements,
                result@.len() == t,
                forall|x: int|
                    0 <= x < t ==> vec_views(#[trigger] result@[x]@) == blocks(
                        self@,
                        nth_growth_string(n as nat, x as nat),
                    ),
                t < arrangements ==> assignments@ == nth_growth_string(n as nat, t as nat),
            decreases arrangements - t,
        {
            proof {
                lemma_nth_growth_string(n as nat, t as nat);
            }
            let v = collect_blocks(&self, &assignments);
            let ghost a0 = assignments@;
            advance(&mut assignments);
            proof {
                if t + 1 < arrangements {
                    lemma_next_rank(a0, 0);
                    assert(nth_growth_string(n as nat, (t + 1) as nat) == match next_from(a0, 0) {
                        Some(x) => x,
                        None => zeros(n as nat),
                    });
                }
            }
            result.push(v);
            t = t + 1;
        }
        result
    }
}

/// Every count on diagonal `level` fits in a `usize`.
pub open spec fn diagonal_fits(level: nat) -> bool {
    forall|a: nat, b: nat|
        1 <= a && 1 <= b && a + b - 1 == level ==> #[trigger] partitions_count(a, b) <= usize::MAX
}

/// The counts of the first `levels` diagonals fit exactly when each diagonal's do.
pub proof fn lemma_counts_fit_by_diagonal(levels: nat)
    ensures
        counts_fit(levels) <==> forall|l: nat| 1 <= l <= levels ==> #[trigger] diagonal_fits(l),
{
    if counts_fit(levels) {
        assert forall|l: nat| 1 <= l <= levels implies #[trigger] diagonal_fits(l) by {
            assert forall|a: nat, b: nat| 1 <= a && 1 <= b && a + b - 1 == l implies #[trigger] partitions_count(
                a,
                b,
            ) <= usize::MAX by {}
        }
    }
    if forall|l: nat| 1 <= l <= levels ==> #[trigger] diagonal_fits(l) {
        assert forall|a: nat, b: nat|
            1 <= a && 1 <= b && a + b - 1 <= levels implies #[trigger] partitions_count(a, b)
            <= usize::MAX by {
            assert(diagonal_fits((a + b - 1) as nat));
        }
    }
}

/// Appends diagonal `level` to a table holding the diagonals before it, in order; gives
/// `false`, with the table in an unspecified state, exactly when a count on that diagonal
/// does not fit in a `usize`.
fn push_diagonal(table: &mut Vec<usize>, level: u32, Ghost(limit): Ghost<nat>) -> (ok: bool)
    requires
        1 <= level <= limit,
        (limit - 1) * limit <= usize::MAX,
        old(table)@.len() == tri((level - 1) as nat),
        forall|a: nat, b: nat|
            1 <= a && 1 <= b && a + b - 1 <= level - 1 ==> old(table)@[table_index(a, b) as int]
                == #[trigger] partitions_count(a, b),
    ensures
        ok == diagonal_fits(level as nat),
        ok ==> final(table)@.len() == tri(level as nat),
        ok ==> old(table)@.is_prefix_of(final(table)@),
        ok ==> forall|a: nat, b: nat|
            1 <= a && 1 <= b && a + b - 1 <= level ==> final(table)@[table_index(a, b) as int]
                == #[trigger] partitions_count(a, b),
{
    proof {
        lemma_diagonal_bound(level as nat, limit);
    }
    for idx in 0..level
        invariant
            1 <= level <= limit,
            (limit - 1) * limit <= usize::MAX,
            (level - 1) * level <= usize::MAX,
            (level - 2) * (level - 1) <= usize::MAX,
            table@.len() == tri((level - 1) as nat) + idx,
            old(table)@.is_prefix_of(table@),
            forall|a: nat, b: nat|
                1 <= a && 1 <= b && a + b - 1 <= level - 1 ==> table@[table_index(a, b) as int]
                    == #[trigger] partitions_count(a, b),
            forall|j: int|
                0 <= j < idx ==> table@[tri((level - 1) as nat) + j] == #[trigger] diagonal_entry(
                    level as nat,
                    j,
                ),
            forall|j: int| 0 <= j < idx ==> #[trigger] diagonal_entry(level as nat, j) <= usize::MAX,
    {
        let n1 = idx + 1;
        let m1 = level - idx;
        proof {
            assert(tri(level as nat) == tri((level - 1) as nat) + level);
        }
        let count = if n1 == 1 {
            proof {
                assert(diagonal_entry(level as nat, idx as int) == 1);
            }
            1
        } else {
            let len = table.len();
            proof {
                let j = (level - 1) as nat;
                assert(tri(j) == tri((j - 1) as nat) + j);
                assert(table_index((n1 - 1) as nat, m1 as nat) == tri((j - 1) as nat) + n1 - 2);
                lemma_tri_monotonic((j - 1) as nat, j);
                lemma_table_index_bound((n1 - 1) as nat, m1 as nat, (level - 1) as nat);
                assert(table_index((n1 - 1) as nat, (m1 + 1) as nat) == tri(j) + n1 - 2);
                assert(diagonal_entry(level as nat, idx - 1) == partitions_count(
                    (n1 - 1) as nat,
                    (m1 + 1) as nat,
                ));
                assert(table@[tri(j) + idx - 1] == partitions_count(
                    (n1 - 1) as nat,
                    (m1 + 1) as nat,
                ));
                assert(partitions_count(n1 as nat, m1 as nat) == m1 * partitions_count(
                    (n1 - 1) as nat,
                    m1 as nat,
                ) + partitions_count((n1 - 1) as nat, (m1 + 1) as nat));
                assert(diagonal_entry(level as nat, idx as int) == partitions_count(
                    n1 as nat,
                    m1 as nat,
                ));
            }
            let c1 = table[PartitionsTable::idx(n1 - 1, m1)];
            let c2 = table[PartitionsTable::idx(n1 - 1, m1 + 1)];
            let scaled = (m1 as usize).checked_mul(c1);
            if scaled.is_none() {
                proof {
                    assert(partitions_count(n1 as nat, m1 as nat) > usize::MAX);
                }
                return false;
            }
            let total = scaled.unwrap().checked_add(c2);
            if total.is_none() {
                proof {
                    assert(partitions_count(n1 as nat, m1 as nat) > usize::MAX);
                }
                return false;
            }
            total.unwrap()
        };
        let ghost before_push = table@;
        table.push(count);
        proof {
            assert(old(table)@ =~= table@.subrange(0, old(table)@.len() as int));
            assert forall|a: nat, b: nat|
                1 <= a && 1 <= b && a + b - 1 <= level - 1 implies table@[table_index(a, b) as int]
                == #[trigger] partitions_count(a, b) by {
                lemma_table_index_bound(a, b, (level - 1) as nat);
                assert(table@[table_index(a, b) as int] == before_push[table_index(a, b) as int]);
            }
        }
    }
    proof {
        let j = (level - 1) as nat;
        assert(tri(level as nat) == tri(j) + level);
        assert forall|a: nat, b: nat|
            1 <= a && 1 <= b && a + b - 1 <= level implies table@[table_index(a, b) as int]
            == #[trigger] partitions_count(a, b) by {
            if a + b - 1 == level {
                assert(table_index(a, b) == tri(j) + (a - 1));
                assert(diagonal_entry(level as nat, a - 1) == partitions_count(a, b));
            }
        }
        assert forall|a: nat, b: nat|
            1 <= a && 1 <= b && a + b - 1 == level implies #[trigger] partitions_count(a, b)
            <= usize::MAX by {
            assert(diagonal_entry(level as nat, a - 1) == partitions_count(a, b));
        }
    }
    true
}

/// Whether every partition count on the first `levels` diagonals fits in a `usize`: the
/// test for the overflow condition of enumerating partitions.
pub fn counts_fit_up_to(levels: u32) -> (b: bool)
    requires
        levels >= 1,
        levels + 1 <= u32::MAX,
        (levels - 1) * levels <= usize::MAX,
    ensures
        b == counts_fit(levels as nat),
{
    let mut table: Vec<usize> = Vec::new();
    proof {
        lemma_counts_fit_by_diagonal(levels as nat);
    }
    for level in 1..(levels + 1)
        invariant
            levels + 1 <= u32::MAX,
            (levels - 1) * levels <= usize::MAX,
            1 <= level <= levels + 1,
            table@.len() == tri((level - 1) as nat),
            forall|a: nat, b: nat|
                1 <= a && 1 <= b && a + b - 1 <= level - 1 ==> table@[table_index(a, b) as int]
                    == #[trigger] partitions_count(a, b),
            forall|l: nat| 1 <= l < level ==> #[trigger] diagonal_fits(l),
            counts_fit(levels as nat) <==> forall|l: nat| 1 <= l <= levels ==> #[trigger] diagonal_fits(l),
    {
        let ok = push_diagonal(&mut table, level, Ghost(levels as nat));
        if !ok {
            return false;
        }
    }
    true
}

/// A memo table of `partitions_count`, filled diagonal by diagonal.
pub struct PartitionsTable {
    partitions_count: Vec<usize>,
    levels: u32,
}

impl PartitionsTable {
    /// The table holds the counts of its first `levels` diagonals, in diagonal order.
    pub closed spec fn wf(&self) -> bool {
        &&& self.partitions_count@.len() == tri(self.levels as nat)
        &&& forall|a: nat, b: nat|
            1 <= a && 1 <= b && a + b - 1 <= self.levels ==> self.partitions_count@[table_index(
                a,
                b,
            ) as int] == #[trigger] partitions_count(a, b)
    }

    /// The number of diagonals filled.
    pub closed spec fn filled_levels(&self) -> nat {
        self.levels as nat
    }

    /// The counts held, diagonal after diagonal.
    pub closed spec fn counts(&self) -> Seq<usize> {
        self.partitions_count@
    }

    /// A well-formed table holds the counts of its filled diagonals, each at its
    /// `table_index`, and nothing more.
    pub proof fn lemma_counts(&self)
        requires
            self.wf(),
        ensures
            self.counts().len() == tri(self.filled_levels()),
            forall|a: nat, b: nat|
                1 <= a && 1 <= b && a + b - 1 <= self.filled_levels() ==> self.counts()[table_index(
                    a,
                    b,
                ) as int] == #[trigger] partitions_count(a, b),
    {
    }

    /// An empty table.
    pub fn new() -> (t: Self)
        ensures
            t.wf(),
            t.filled_levels() == 0,
    {
        PartitionsTable { partitions_count: Vec::new(), levels: 0 }
    }

    /// The position of `partitions_count(n, m)` in the table.
    pub fn idx(n: u32, m: u32) -> (i: usize)
        requires
            n >= 1,
            m >= 1,
            (n + m - 2) * (n + m - 1) <= usize::MAX,
            table_index(n as nat, m as nat) <= usize::MAX,
        ensures
            i == table_index(n as nat, m as nat),
    {
        let n = n as usize;
        let m = m as usize;
        proof {
            lemma_tri_closed_form((n + m - 2) as nat);
        }
        let level = n + m - 2;
        level * (level + 1) / 2 + (n - 1)
    }

    /// Fills the table up to the diagonal of `partitions_count(n, m)`.
    fn ensure_filled(&mut self, n: u32, m: u32)
        requires
            old(self).wf(),
            n >= 1,
            m >= 1,
            n + m <= u32::MAX,
            (n + m - 2) * (n + m - 1) <= usize::MAX,
            old(self).levels < n + m - 1 ==> counts_fit((n + m - 1) as nat),
        ensures
            final(self).wf(),
            final(self).levels == (if old(self).levels >= n + m - 1 {
                old(self).levels
            } else {
                (n + m - 1) as u32
            }),
            old(self).levels >= n + m - 1 ==> *final(self) == *old(self),
            old(self).partitions_count@.is_prefix_of(final(self).partitions_count@),
    {
        let required_levels = n + m - 1;
        if self.levels >= required_levels {
            return ;
        }
        proof {
            lemma_table_size(required_levels as nat);
        }
        let num_required_elements = Self::idx(required_levels, 1) + 1;
        self.partitions_count.reserve(
            num_required_elements.saturating_sub(self.partitions_count.len()),
        );
        let start = self.levels + 1;
        for level in start..(required_levels + 1)
            invariant
                start == old(self).levels + 1,
                self.levels == old(self).levels,
                required_levels == n + m - 1,
                (n + m - 2) * (n + m - 1) <= usize::MAX,
                counts_fit(required_levels as nat),
                start <= level <= required_levels + 1,
                self.partitions_count@.len() == tri((level - 1) as nat),
                old(self).partitions_count@.is_prefix_of(self.partitions_count@),
                forall|a: nat, b: nat|
                    1 <= a && 1 <= b && a + b - 1 <= level - 1 ==> self.partitions_count@[table_index(
                        a,
                        b,
                    ) as int] == #[trigger] partitions_count(a, b),
        {
            proof {
                lemma_diagonal_bound(level as nat, required_levels as nat);
                assert(diagonal_fits(level as nat));
            }
            let ghost before = self.partitions_count@;
            let ok = push_diagonal(&mut self.partitions_count, level, Ghost(required_levels as nat));
            proof {
                assert(ok);
                assert(old(self).partitions_count@ =~= self.partitions_count@.subrange(
                    0,
                    old(self).partitions_count@.len() as int,
                )) by {
                    assert(old(self).partitions_count@ =~= before.subrange(
                        0,
                        old(self).partitions_count@.len() as int,
                    ));
                }
            }
        }
        self.levels = required_levels;
    }

    /// The number of ways to spread `n` items when `m` groups are open to the first, filling
    /// the table as far as that needs.
    pub fn num_partitions(&mut self, n: u32, m: u32) -> (c: usize)
        requires
            old(self).wf(),
            n >= 1,
            m >= 1,
            n + m <= u32::MAX,
            (n + m - 2) * (n + m - 1) <= usize::MAX,
            old(self).filled_levels() < n + m - 1 ==> counts_fit((n + m - 1) as nat),
        ensures
            final(self).wf(),
            c == partitions_count(n as nat, m as nat),
            final(self).filled_levels() == (if old(self).filled_levels() >= n + m - 1 {
                old(self).filled_levels()
            } else {
                (n + m - 1) as nat
            }),
            old(self).filled_levels() >= n + m - 1 ==> *final(self) == *old(self),
            old(self).counts().is_prefix_of(final(self).counts()),
    {
        self.ensure_filled(n, m);
        let len = self.partitions_count.len();
        proof {
            lemma_table_index_bound(n as nat, m as nat, self.levels as nat);
        }
        self.partitions_count[Self::idx(n, m)]
    }
}

} // verus!
