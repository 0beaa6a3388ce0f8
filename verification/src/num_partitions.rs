//! Partitions of a number into a given count of positive parts.

use vstd::prelude::*;

verus! {

/// The sum of a sequence.
pub open spec fn seq_sum(s: Seq<u32>) -> int
    decreases s.len(),
{
    if s.len() == 0 {
        0
    } else {
        s[0] + seq_sum(s.drop_first())
    }
}

/// `p` is a partition of `n` into `k` parts, none above `largest`, listed largest first.
pub open spec fn is_partition(p: Seq<u32>, n: nat, k: nat, largest: nat) -> bool {
    &&& p.len() == k
    &&& forall|i: int| 0 <= i < p.len() ==> 1 <= #[trigger] p[i] <= largest
    &&& forall|i: int, j: int| 0 <= i <= j < p.len() ==> #[trigger] p[j] <= #[trigger] p[i]
    &&& seq_sum(p) == n
}

/// Lexicographic order: `a` comes before `b`.
pub open spec fn lex_lt(a: Seq<u32>, b: Seq<u32>) -> bool
    decreases a.len(),
{
    a.len() > 0 && b.len() > 0 && (a[0] < b[0] || (a[0] == b[0] && lex_lt(
        a.drop_first(),
        b.drop_first(),
    )))
}

/// Each sequence comes before the next, lexicographically.
pub open spec fn strictly_ascending(s: Seq<Seq<u32>>) -> bool {
    forall|i: int, j: int| 0 <= i < j < s.len() ==> lex_lt(#[trigger] s[i], #[trigger] s[j])
}

/// The contents of a list of vectors.
pub open spec fn views(v: Seq<Vec<u32>>) -> Seq<Seq<u32>> {
    v.map_values(|x: Vec<u32>| x@)
}

/// A partition with a part in front.
proof fn lemma_partition_cons(p: Seq<u32>, n: nat, k: nat, largest: nat)
    requires
        k >= 1,
        p.len() == k,
    ensures
        is_partition(p, n, k, largest) <==> (1 <= p[0] <= largest && p[0] <= n && is_partition(
            p.drop_first(),
            (n - p[0]) as nat,
            (k - 1) as nat,
            p[0] as nat,
        )),
{
    let q = p.drop_first();
    if is_partition(p, n, k, largest) {
        assert(seq_sum(p) == p[0] + seq_sum(q));
        lemma_sum_nonneg(q);
        assert forall|i: int, j: int| 0 <= i <= j < q.len() implies #[trigger] q[j] <= #[trigger] q[i] by {
            assert(p[j + 1] <= p[i + 1]);
        }
        assert forall|i: int| 0 <= i < q.len() implies 1 <= #[trigger] q[i] <= p[0] by {
            assert(p[i + 1] <= p[0]);
            assert(1 <= p[i + 1]);
        }
    }
    if 1 <= p[0] <= largest && p[0] <= n && is_partition(q, (n - p[0]) as nat, (k - 1) as nat, p[0] as nat) {
        assert forall|i: int, j: int| 0 <= i <= j < p.len() implies #[trigger] p[j] <= #[trigger] p[i] by {
            if i > 0 {
                assert(q[j - 1] <= q[i - 1]);
            } else if j > 0 {
                assert(q[j - 1] <= p[0]);
            }
        }
        assert forall|i: int| 0 <= i < p.len() implies 1 <= #[trigger] p[i] <= largest by {
            if i > 0 {
                assert(1 <= q[i - 1] <= p[0]);
            }
        }
    }
}

/// Sums of `u32` sequences are never negative.
proof fn lemma_sum_nonneg(s: Seq<u32>)
    ensures
        seq_sum(s) >= 0,
    decreases s.len(),
{
    if s.len() > 0 {
        lemma_sum_nonneg(s.drop_first());
    }
}

/// A partition into `k` parts between one and `largest` has `k <= n <= k * largest`.
proof fn lemma_partition_bounds(p: Seq<u32>, n: nat, k: nat, largest: nat)
    requires
        is_partition(p, n, k, largest),
    ensures
        k <= n,
        n <= k * largest,
    decreases k,
{
    if k > 0 {
        lemma_partition_cons(p, n, k, largest);
        lemma_partition_bounds(p.drop_first(), (n - p[0]) as nat, (k - 1) as nat, p[0] as nat);
        assert((k - 1) * p[0] <= (k - 1) * largest) by (nonlinear_arith)
            requires
                p[0] <= largest,
                k >= 1,
        ;
        assert(k * largest == largest + (k - 1) * largest) by (nonlinear_arith)
            requires
                k >= 1,
        ;
    } else {
        assert(seq_sum(p) == 0);
    }
}

/// The sum of a concatenation is the sum of the sums.
pub proof fn lemma_sum_concat(a: Seq<u32>, b: Seq<u32>)
    ensures
        seq_sum(a + b) == seq_sum(a) + seq_sum(b),
    decreases a.len(),
{
    if a.len() > 0 {
        assert((a + b).drop_first() =~= a.drop_first() + b);
        lemma_sum_concat(a.drop_first(), b);
    } else {
        assert(a + b =~= b);
    }
}

/// A sum of `s.len()` terms, each between `lo` and `hi`, lies between `s.len() * lo` and
/// `s.len() * hi`.
pub proof fn lemma_sum_bounds(s: Seq<u32>, lo: nat, hi: nat)
    requires
        forall|i: int| 0 <= i < s.len() ==> lo <= #[trigger] s[i] <= hi,
    ensures
        s.len() * lo <= seq_sum(s) <= s.len() * hi,
    decreases s.len(),
{
    if s.len() > 0 {
        let t = s.drop_first();
        lemma_sum_bounds(t, lo, hi);
        let m = t.len();
        assert(s.len() * lo == m * lo + lo && s.len() * hi == m * hi + hi) by (nonlinear_arith)
            requires
                s.len() == m + 1,
        ;
    }
}

/// Appending a part adds it to the sum.
pub proof fn lemma_sum_push(s: Seq<u32>, x: u32)
    ensures
        seq_sum(s.push(x)) == seq_sum(s) + x,
{
    lemma_sum_concat(s, seq![x]);
    assert(s.push(x) =~= s + seq![x]);
    assert(seq![x].drop_first() =~= Seq::<u32>::empty());
    assert(seq_sum(Seq::<u32>::empty()) == 0);
}

/// A lexicographic comparison is decided at a first position where the two differ.
pub proof fn lemma_lex_witness(a: Seq<u32>, b: Seq<u32>)
    requires
        lex_lt(a, b),
    ensures
        exists|j: int|
            0 <= j < a.len() && j < b.len() && a.take(j) == b.take(j) && #[trigger] a[j] < b[j],
    decreases a.len(),
{
    if a[0] < b[0] {
        assert(a.take(0) =~= b.take(0));
        assert(a[0] < b[0]);
    } else {
        lemma_lex_witness(a.drop_first(), b.drop_first());
        let j = choose|j: int|
            0 <= j < a.drop_first().len() && j < b.drop_first().len() && a.drop_first().take(j)
                == b.drop_first().take(j) && #[trigger] a.drop_first()[j] < b.drop_first()[j];
        let ta = a.take(j + 1);
        let tb = b.take(j + 1);
        assert(ta =~= tb) by {
            assert forall|x: int| 0 <= x < j + 1 implies #[trigger] ta[x] == tb[x] by {
                if x > 0 {
                    assert(a.drop_first().take(j)[x - 1] == b.drop_first().take(j)[x - 1]);
                }
            }
        }
        assert(a[j + 1] < b[j + 1]);
    }
}

/// Equal up to position `j`, and smaller at `j`, means lexicographically smaller.
pub proof fn lemma_lex_from_witness(a: Seq<u32>, b: Seq<u32>, j: int)
    requires
        0 <= j < a.len(),
        j < b.len(),
        a.take(j) == b.take(j),
        a[j] < b[j],
    ensures
        lex_lt(a, b),
    decreases j,
{
    if j > 0 {
        assert(a[0] == a.take(j)[0]);
        assert(b[0] == b.take(j)[0]);
        let ta = a.drop_first().take(j - 1);
        let tb = b.drop_first().take(j - 1);
        assert(ta =~= tb) by {
            assert forall|x: int| 0 <= x < j - 1 implies #[trigger] ta[x] == tb[x] by {
                assert(ta[x] == a[x + 1]);
                assert(tb[x] == b[x + 1]);
                assert(a.take(j)[x + 1] == a[x + 1]);
                assert(b.take(j)[x + 1] == b[x + 1]);
                assert(a.take(j)[x + 1] == b.take(j)[x + 1]);
            }
        }
        lemma_lex_from_witness(a.drop_first(), b.drop_first(), j - 1);
    }
}

/// A partition stays one under any bound at least its first part.
pub proof fn lemma_partition_rebound(t: Seq<u32>, n: nat, k: nat, largest: nat, bound: nat)
    requires
        is_partition(t, n, k, largest),
        k > 0 ==> t[0] <= bound,
    ensures
        is_partition(t, n, k, bound),
{
    assert forall|i: int| 0 <= i < t.len() implies 1 <= #[trigger] t[i] <= bound by {
        assert(t[i] <= t[0]);
    }
}

/// Fills `slots` places with a total of `avail`, each at most `cap`, as large as possible
/// from the front.
pub open spec fn greedy_fill(avail: nat, slots: nat, cap: nat) -> Seq<u32>
    decreases slots,
{
    if slots == 0 {
        Seq::empty()
    } else {
        let c: int = if avail - (slots - 1) < cap {
            avail - (slots - 1)
        } else {
            cap as int
        };
        seq![c as u32] + greedy_fill((avail - c) as nat, (slots - 1) as nat, cap)
    }
}

/// When the total can be placed at all, the greedy fill places it, and every other way
/// of placing it comes before it lexicographically.
pub proof fn lemma_greedy_fill(avail: nat, slots: nat, cap: nat)
    requires
        slots <= avail <= slots * cap,
        cap <= u32::MAX,
    ensures
        is_partition(greedy_fill(avail, slots, cap), avail, slots, cap),
        forall|t: Seq<u32>|
            #[trigger] is_partition(t, avail, slots, cap) ==> t == greedy_fill(avail, slots, cap)
                || lex_lt(t, greedy_fill(avail, slots, cap)),
    decreases slots,
{
    let f = greedy_fill(avail, slots, cap);
    if slots == 0 {
        assert(avail == 0) by (nonlinear_arith)
            requires
                avail <= slots * cap,
                slots == 0,
        ;
        assert forall|t: Seq<u32>| #[trigger] is_partition(t, avail, slots, cap) implies t == f
            || lex_lt(t, f) by {
            assert(t =~= f);
        }
        assert(seq_sum(f) == 0);
    } else {
        assert(cap >= 1) by (nonlinear_arith)
            requires
                slots <= slots * cap,
                slots >= 1,
        ;
        let c: int = if avail - (slots - 1) < cap {
            avail - (slots - 1)
        } else {
            cap as int
        };
        let a2 = (avail - c) as nat;
        let s2 = (slots - 1) as nat;
        assert(a2 <= s2 * cap) by (nonlinear_arith)
            requires
                avail <= slots * cap,
                a2 == avail - c,
                s2 == slots - 1,
                c == cap || (c == avail - s2 && c < cap),
                cap >= 1,
                s2 <= a2,
        ;
        lemma_greedy_fill(a2, s2, cap);
        let rest = greedy_fill(a2, s2, cap);
        assert(f == seq![c as u32] + rest);
        assert(f.drop_first() =~= rest);
        if s2 > 0 {
            assert(rest[0] <= c);
        }
        lemma_partition_rebound(rest, a2, s2, cap, c as nat);
        assert(f[0] == c);
        lemma_partition_cons(f, avail, slots, cap);
        assert(is_partition(f, avail, slots, cap));
        assert forall|t: Seq<u32>| #[trigger] is_partition(t, avail, slots, cap) implies t == f
            || lex_lt(t, f) by {
            lemma_partition_cons(t, avail, slots, cap);
            let t2 = t.drop_first();
            lemma_sum_bounds(t2, 1, t[0] as nat);
            if t[0] == c {
                lemma_partition_rebound(t2, a2, s2, t[0] as nat, cap);
                if t2 == rest {
                    assert(t =~= f);
                }
            }
        }
    }
}

/// Position `j` of `prev` can be lowered by one with the places after it refilled: the part
/// there is at least two and the parts from `j` on can hold what they must sum to.
pub open spec fn can_lower_at(prev: Seq<u32>, n: nat, k: nat, j: int) -> bool {
    &&& prev[j] >= 2
    &&& (prev[j] - 1) * (k - j) >= n - seq_sum(prev.take(j))
}

/// Some partition of `n` into `k` parts comes before `prev`.
pub open spec fn exists_below(prev: Seq<u32>, n: nat, k: nat) -> bool {
    exists|t: Seq<u32>| #[trigger] is_partition(t, n, k, n) && lex_lt(t, prev)
}

/// `q` is the greatest partition of `n` into `k` parts that comes before `prev`.
pub open spec fn greatest_below(q: Seq<u32>, prev: Seq<u32>, n: nat, k: nat) -> bool {
    &&& is_partition(q, n, k, n)
    &&& lex_lt(q, prev)
    &&& forall|t: Seq<u32>|
        #[trigger] is_partition(t, n, k, n) && lex_lt(t, prev) ==> t == q || lex_lt(t, q)
}

/// The first position where a smaller partition differs from a partition is one that can
/// be lowered.
pub proof fn lemma_below_can_lower(p: Seq<u32>, t: Seq<u32>, n: nat, k: nat, j: int)
    requires
        is_partition(p, n, k, n),
        is_partition(t, n, k, n),
        0 <= j < k,
        t.take(j) == p.take(j),
        t[j] < p[j],
    ensures
        can_lower_at(p, n, k, j),
{
    let ts = t.skip(j);
    assert(t =~= t.take(j) + ts);
    lemma_sum_concat(t.take(j), ts);
    assert forall|x: int| 0 <= x < ts.len() implies 1 <= #[trigger] ts[x] <= (p[j] - 1) as nat by {
        assert(t[j + x] <= t[j]);
    }
    lemma_sum_bounds(ts, 1, (p[j] - 1) as nat);
}

/// The sum of a prefix of a partition is at most the whole.
pub proof fn lemma_prefix_sum(p: Seq<u32>, i: int)
    requires
        0 <= i <= p.len(),
    ensures
        seq_sum(p) == seq_sum(p.take(i)) + seq_sum(p.skip(i)),
        seq_sum(p.skip(i)) >= 0,
        seq_sum(p.take(i)) >= 0,
{
    assert(p =~= p.take(i) + p.skip(i));
    lemma_sum_concat(p.take(i), p.skip(i));
    lemma_sum_nonneg(p.skip(i));
    lemma_sum_nonneg(p.take(i));
}

/// The candidate built by keeping `pre`, lowering the next part to `v - 1` and refilling
/// greedily is a partition.
pub proof fn lemma_candidate_valid(pre: Seq<u32>, v: nat, n: nat, k: nat, q: Seq<u32>)
    requires
        pre.len() < k,
        2 <= v <= u32::MAX + 1,
        seq_sum(pre) <= n,
        forall|x: int| 0 <= x < pre.len() ==> 1 <= #[trigger] pre[x] <= n,
        forall|x: int, y: int| 0 <= x <= y < pre.len() ==> #[trigger] pre[y] <= #[trigger] pre[x],
        pre.len() > 0 ==> pre.last() >= v - 1,
        n - seq_sum(pre) >= (v - 1) + (k - pre.len() - 1),
        n - seq_sum(pre) <= (v - 1) * (k - pre.len()),
        q == pre + seq![(v - 1) as u32] + greedy_fill(
            (n - seq_sum(pre) - (v - 1)) as nat,
            (k - pre.len() - 1) as nat,
            (v - 1) as nat,
        ),
    ensures
        is_partition(q, n, k, n),
        q.take(pre.len() as int) == pre,
        q[pre.len() as int] == v - 1,
{
    let i = pre.len() as int;
    let c = (v - 1) as nat;
    let avail = (n - seq_sum(pre) - c) as nat;
    let slots = (k - i - 1) as nat;
    assert(avail <= slots * c) by (nonlinear_arith)
        requires
            avail + c <= c * (slots + 1),
    ;
    lemma_greedy_fill(avail, slots, c);
    let f = greedy_fill(avail, slots, c);
    let head = pre + seq![c as u32];
    assert(q == head + f);
    assert(q.take(i) =~= pre);
    assert(q[i] == c);
    assert(head =~= pre.push(c as u32));
    lemma_sum_push(pre, c as u32);
    lemma_sum_concat(head, f);
    assert(c <= n);
    assert forall|x: int| 0 <= x < q.len() implies 1 <= #[trigger] q[x] <= n by {
        if x > i {
            assert(q[x] == f[x - i - 1]);
        }
    }
    assert forall|x: int, y: int| 0 <= x <= y < q.len() implies #[trigger] q[y] <= #[trigger] q[x] by {
        if y > i {
            assert(q[y] == f[y - i - 1]);
            assert(f[y - i - 1] <= c);
            if x > i {
                assert(q[x] == f[x - i - 1]);
            } else if x < i {
                assert(pre[x] >= pre.last());
            }
        } else if y == i && x < i {
            assert(pre[x] >= pre.last());
        }
    }
}

/// Every partition that agrees with `pre` and has a part below `v` next is the candidate
/// or comes before it.
pub proof fn lemma_candidate_greatest(pre: Seq<u32>, v: nat, n: nat, k: nat, q: Seq<u32>)
    requires
        pre.len() < k,
        2 <= v <= u32::MAX + 1,
        seq_sum(pre) <= n,
        forall|x: int| 0 <= x < pre.len() ==> 1 <= #[trigger] pre[x] <= n,
        forall|x: int, y: int| 0 <= x <= y < pre.len() ==> #[trigger] pre[y] <= #[trigger] pre[x],
        pre.len() > 0 ==> pre.last() >= v - 1,
        n - seq_sum(pre) >= (v - 1) + (k - pre.len() - 1),
        n - seq_sum(pre) <= (v - 1) * (k - pre.len()),
        q == pre + seq![(v - 1) as u32] + greedy_fill(
            (n - seq_sum(pre) - (v - 1)) as nat,
            (k - pre.len() - 1) as nat,
            (v - 1) as nat,
        ),
    ensures
        forall|t: Seq<u32>|
            #[trigger] is_partition(t, n, k, n) && t.take(pre.len() as int) == pre && t[pre.len() as int]
                < v ==> t == q || lex_lt(t, q),
{
    lemma_candidate_valid(pre, v, n, k, q);
    let i = pre.len() as int;
    let c = (v - 1) as nat;
    let avail = (n - seq_sum(pre) - c) as nat;
    let slots = (k - i - 1) as nat;
    assert(avail <= slots * c) by (nonlinear_arith)
        requires
            avail + c <= c * (slots + 1),
    ;
    lemma_greedy_fill(avail, slots, c);
    let f = greedy_fill(avail, slots, c);
    let head = pre + seq![c as u32];
    assert(q == head + f);
    assert(head =~= pre.push(c as u32));
    lemma_sum_push(pre, c as u32);
    assert forall|t: Seq<u32>|
        #[trigger] is_partition(t, n, k, n) && t.take(i) == pre && t[i] < v implies t == q || lex_lt(
        t,
        q,
    ) by {
        if t[i] < c {
            lemma_lex_from_witness(t, q, i);
        } else {
            lemma_tail_fits(t, pre, c, n, k);
            let ts = t.skip(i + 1);
            if ts == f {
                assert(t =~= q);
            } else {
                assert(lex_lt(ts, f));
                lemma_lex_witness(ts, f);
                let j = choose|j: int|
                    0 <= j < ts.len() && j < f.len() && ts.take(j) == f.take(j) && #[trigger] ts[j]
                        < f[j];
                assert(t.take(i + 1 + j) =~= q.take(i + 1 + j)) by {
                    assert(t.take(i + 1 + j) =~= head + ts.take(j));
                    assert(q.take(i + 1 + j) =~= head + f.take(j));
                }
                assert(t[i + 1 + j] == ts[j]);
                assert(q[i + 1 + j] == f[j]);
                lemma_lex_from_witness(t, q, i + 1 + j);
            }
        }
    }
}

/// What follows a prefix `pre` and a part `c` in a partition is a partition of the rest with
/// parts at most `c`.
pub proof fn lemma_tail_fits(t: Seq<u32>, pre: Seq<u32>, c: nat, n: nat, k: nat)
    requires
        is_partition(t, n, k, n),
        pre.len() < k,
        t.take(pre.len() as int) == pre,
        t[pre.len() as int] == c,
    ensures
        t =~= pre.push(c as u32) + t.skip(pre.len() as int + 1),
        is_partition(
            t.skip(pre.len() as int + 1),
            (n - seq_sum(pre) - c) as nat,
            (k - pre.len() - 1) as nat,
            c,
        ),
{
    let i = pre.len() as int;
    let ts = t.skip(i + 1);
    assert(t =~= pre.push(c as u32) + ts);
    lemma_sum_concat(pre.push(c as u32), ts);
    lemma_sum_push(pre, c as u32);
    assert forall|x: int| 0 <= x < ts.len() implies 1 <= #[trigger] ts[x] <= c by {
        assert(t[i + 1 + x] <= t[i]);
    }
    assert forall|x: int, y: int| 0 <= x <= y < ts.len() implies #[trigger] ts[y] <= #[trigger] ts[x] by {
        assert(t[i + 1 + y] <= t[i + 1 + x]);
    }
    assert(t == pre.push(c as u32) + ts);
    assert(seq_sum(pre.push(c as u32) + ts) == seq_sum(pre.push(c as u32)) + seq_sum(ts));
    assert(seq_sum(pre.push(c as u32)) == seq_sum(pre) + c);
    assert(seq_sum(t) == seq_sum(pre) + c + seq_sum(ts));
    assert(ts.len() == k - i - 1);
    assert(seq_sum(ts) == n - seq_sum(pre) - c);
    lemma_sum_nonneg(ts);
    assert(is_partition(ts, (n - seq_sum(pre) - c) as nat, (k - i - 1) as nat, c));
}

/// No sequence comes before itself.
pub proof fn lemma_lex_irreflexive(a: Seq<u32>)
    ensures
        !lex_lt(a, a),
    decreases a.len(),
{
    if a.len() > 0 {
        lemma_lex_irreflexive(a.drop_first());
    }
}

/// Two sequences do not each come before the other.
pub proof fn lemma_lex_asymmetric(a: Seq<u32>, b: Seq<u32>)
    ensures
        !(lex_lt(a, b) && lex_lt(b, a)),
    decreases a.len(),
{
    if a.len() > 0 && b.len() > 0 {
        lemma_lex_asymmetric(a.drop_first(), b.drop_first());
    }
}

/// Lending from the start state walks the ascending listing of all partitions backwards:
/// the first partition lent is the last one listed, each later one is the one listed just
/// before, and after the first one listed there is none.
pub proof fn lemma_lending_follows_listing(s: Seq<Seq<u32>>, n: nat, k: nat)
    requires
        1 <= k <= n,
        n - k + 2 <= u32::MAX,
        strictly_ascending(s),
        forall|p: Seq<u32>| is_partition(p, n, k, n) <==> #[trigger] s.contains(p),
    ensures
        s.len() > 0 ==> greatest_below(s.last(), start_state(n, k), n, k),
        s.len() == 0 ==> !exists_below(start_state(n, k), n, k),
        forall|j: int| 1 <= j < s.len() ==> greatest_below(#[trigger] s[j - 1], s[j], n, k),
        s.len() > 0 ==> !exists_below(s[0], n, k),
{
    lemma_all_below_start(n, k);
    assert forall|i: int| 0 <= i < s.len() implies is_partition(#[trigger] s[i], n, k, n) by {
        assert(s.contains(s[i]));
    }
    if s.len() > 0 {
        let last = s.last();
        assert(s.contains(last));
        assert forall|t: Seq<u32>|
            #[trigger] is_partition(t, n, k, n) && lex_lt(t, start_state(n, k)) implies t == last
            || lex_lt(t, last) by {
            assert(s.contains(t));
            let i = choose|i: int| 0 <= i < s.len() && s[i] == t;
            if i < s.len() - 1 {
                assert(lex_lt(s[i], s[s.len() - 1]));
            }
        }
        assert forall|t: Seq<u32>| #[trigger] is_partition(t, n, k, n) implies !lex_lt(t, s[0]) by {
            assert(s.contains(t));
            let i = choose|i: int| 0 <= i < s.len() && s[i] == t;
            if i == 0 {
                lemma_lex_irreflexive(t);
            } else {
                assert(lex_lt(s[0], s[i]));
                lemma_lex_asymmetric(s[0], t);
            }
        }
    } else {
        assert forall|t: Seq<u32>| #[trigger] is_partition(t, n, k, n) implies !lex_lt(
            t,
            start_state(n, k),
        ) by {
            assert(s.contains(t));
        }
    }
    assert forall|j: int| 1 <= j < s.len() implies greatest_below(#[trigger] s[j - 1], s[j], n, k) by {
        assert(lex_lt(s[j - 1], s[j]));
        assert forall|t: Seq<u32>| #[trigger] is_partition(t, n, k, n) && lex_lt(t, s[j]) implies t
            == s[j - 1] || lex_lt(t, s[j - 1]) by {
            assert(s.contains(t));
            let i = choose|i: int| 0 <= i < s.len() && s[i] == t;
            if i < j - 1 {
                assert(lex_lt(s[i], s[j - 1]));
            } else if i >= j {
                if i == j {
                    lemma_lex_irreflexive(t);
                } else {
                    assert(lex_lt(s[j], s[i]));
                    lemma_lex_asymmetric(s[j], t);
                }
            }
        }
    }
}

/// What one call of `next` does, by its contract: from state `before` it lends `out` and
/// leaves state `after`.
pub open spec fn lend_step(
    before: Seq<u32>,
    after: Seq<u32>,
    out: Option<Seq<u32>>,
    n: nat,
    k: nat,
) -> bool {
    &&& (out is Some <==> exists_below(before, n, k))
    &&& (out matches Some(q) ==> q == after && greatest_below(q, before, n, k))
    &&& (out is None ==> after == Seq::<u32>::empty())
}

/// There is only one greatest partition below a given sequence.
pub proof fn lemma_greatest_below_unique(q1: Seq<u32>, q2: Seq<u32>, prev: Seq<u32>, n: nat, k: nat)
    requires
        greatest_below(q1, prev, n, k),
        greatest_below(q2, prev, n, k),
    ensures
        q1 == q2,
{
    assert(is_partition(q2, n, k, n));
    assert(is_partition(q1, n, k, n));
    lemma_lex_asymmetric(q1, q2);
}

/// The state reached after `j` calls of a run that starts at the start state, with the
/// ascending listing `s` of all partitions.
pub open spec fn run_state(s: Seq<Seq<u32>>, n: nat, k: nat, j: int) -> Seq<u32> {
    if j == 0 {
        start_state(n, k)
    } else if j <= s.len() {
        s[s.len() - j]
    } else {
        Seq::empty()
    }
}

/// What the `j`-th call of such a run lends: the partitions from the last listed down to
/// the first, then nothing.
pub open spec fn run_output(s: Seq<Seq<u32>>, j: int) -> Option<Seq<u32>> {
    if j < s.len() {
        Some(s[s.len() - 1 - j])
    } else {
        None
    }
}

/// One call of a run from the start state, in state `run_state(s, n, k, i)`, lends
/// `run_output(s, i)` and moves to the next state of the run.
proof fn lemma_lending_one(
    s: Seq<Seq<u32>>,
    n: nat,
    k: nat,
    before: Seq<u32>,
    after: Seq<u32>,
    out: Option<Seq<u32>>,
    i: int,
)
    requires
        1 <= k <= n,
        n - k + 2 <= u32::MAX,
        strictly_ascending(s),
        forall|p: Seq<u32>| is_partition(p, n, k, n) <==> #[trigger] s.contains(p),
        0 <= i,
        before == run_state(s, n, k, i),
        lend_step(before, after, out, n, k),
    ensures
        after == run_state(s, n, k, i + 1),
        out == run_output(s, i),
{
    if i < s.len() {
        let q0 = s[s.len() - 1 - i];
        assert(greatest_below(q0, before, n, k)) by {
            lemma_lending_follows_listing(s, n, k);
            if i > 0 {
                let jj = s.len() - i;
                assert(greatest_below(s[jj - 1], s[jj], n, k));
            }
        }
        assert(exists_below(before, n, k));
        let q = out->0;
        lemma_greatest_below_unique(q, q0, before, n, k);
    } else if i == s.len() {
        assert(!exists_below(before, n, k)) by {
            lemma_lending_follows_listing(s, n, k);
        }
    } else {
        assert forall|t: Seq<u32>| #[trigger] is_partition(t, n, k, n) implies !lex_lt(
            t,
            before,
        ) by {}
    }
}

/// The first `j` calls of a run from the start state lend what `run_output` says and leave
/// the state `run_state` says.
proof fn lemma_lending_prefix(
    s: Seq<Seq<u32>>,
    n: nat,
    k: nat,
    states: Seq<Seq<u32>>,
    outs: Seq<Option<Seq<u32>>>,
    j: int,
)
    requires
        1 <= k <= n,
        n - k + 2 <= u32::MAX,
        strictly_ascending(s),
        forall|p: Seq<u32>| is_partition(p, n, k, n) <==> #[trigger] s.contains(p),
        states.len() == outs.len() + 1,
        states[0] == start_state(n, k),
        forall|i: int|
            0 <= i < outs.len() ==> lend_step(
                #[trigger] states[i],
                states[i + 1],
                outs[i],
                n,
                k,
            ),
        0 <= j <= outs.len(),
    ensures
        states[j] == run_state(s, n, k, j),
        forall|i: int| 0 <= i < j ==> #[trigger] outs[i] == run_output(s, i),
    decreases j,
{
    if j > 0 {
        let i = j - 1;
        lemma_lending_prefix(s, n, k, states, outs, i);
        assert(lend_step(states[i], states[i + 1], outs[i], n, k));
        lemma_lending_one(s, n, k, states[i], states[i + 1], outs[i], i);
    }
}

/// `m` places holding a total of `m` are all ones.
proof fn lemma_greedy_ones(m: nat, cap: nat)
    requires
        cap >= 1,
    ensures
        greedy_fill(m, m, cap) == Seq::new(m, |i: int| 1u32),
    decreases m,
{
    if m > 0 {
        lemma_greedy_ones((m - 1) as nat, cap);
        assert(greedy_fill(m, m, cap) =~= Seq::new(m, |i: int| 1u32));
    }
}

/// The greatest partition of `n` into `k` parts: `n - k + 1` followed by `k - 1` ones.
pub open spec fn top_partition(n: nat, k: nat) -> Seq<u32> {
    seq![(n - k + 1) as u32] + Seq::new((k - 1) as nat, |i: int| 1u32)
}

/// `top_partition(n, k)` is a partition of `n` into `k` parts, and every other one comes
/// before it.
pub proof fn lemma_top_partition(n: nat, k: nat)
    requires
        1 <= k <= n,
        n <= u32::MAX,
    ensures
        is_partition(top_partition(n, k), n, k, n),
        forall|t: Seq<u32>| #[trigger]
            is_partition(t, n, k, n) ==> t == top_partition(n, k) || lex_lt(t, top_partition(n, k)),
{
    assert(k <= k * n) by (nonlinear_arith)
        requires
            1 <= n,
    ;
    assert(n <= k * n) by (nonlinear_arith)
        requires
            1 <= k,
    ;
    lemma_greedy_fill(n, k, n);
    lemma_greedy_ones((k - 1) as nat, n);
    assert(greedy_fill(n, k, n) =~= top_partition(n, k));
}

/// The partition of `n` into `k` parts that spreads `n` as evenly as it can, largest part
/// first: each part is what is left, divided by the places left, rounded up.
pub open spec fn even_partition(n: nat, k: nat) -> Seq<u32>
    decreases k,
{
    if k == 0 {
        Seq::empty()
    } else {
        let c = (n + k - 1) / k as int;
        seq![c as u32] + even_partition((n - c) as nat, (k - 1) as nat)
    }
}

/// Facts about the first part of `even_partition(n, k)`: it is at least one, no place needs
/// more than it, and the rest again fits `k - 1` places of at most it.
proof fn lemma_even_first(n: nat, k: nat)
    requires
        1 <= k <= n,
    ensures
        ({
            let c = (n + k - 1) / k as int;
            &&& 1 <= c <= n
            &&& k * c <= n + k - 1
            &&& n + k - 1 < k * c + k
            &&& n <= k * c
            &&& k - 1 <= n - c
            &&& (n - c) <= (k - 1) * c
            &&& k >= 2 ==> (n - c + (k - 1) - 1) / (k - 1) as int <= c
        }),
{
    let c = (n + k - 1) / k as int;
    assert(k * c <= n + k - 1 && n + k - 1 < k * c + k) by (nonlinear_arith)
        requires
            c == (n + k - 1) / k as int,
            k >= 1,
    ;
    assert(1 <= c) by (nonlinear_arith)
        requires
            k * c + k > n + k - 1,
            n >= k,
            k >= 1,
    ;
    assert(c <= n) by (nonlinear_arith)
        requires
            k * c <= n + k - 1,
            k >= 1,
            n >= 1,
    ;
    assert(k - 1 <= n - c) by (nonlinear_arith)
        requires
            k * c <= n + k - 1,
            k >= 1,
            n >= k,
            c >= 1,
    ;
    assert(n - c <= (k - 1) * c) by (nonlinear_arith)
        requires
            n <= k * c,
    ;
    if k >= 2 {
        let d = (n - c + (k - 1) - 1) / (k - 1) as int;
        assert((k - 1) * d <= n - c + (k - 1) - 1) by (nonlinear_arith)
            requires
                d == (n - c + (k - 1) - 1) / (k - 1) as int,
                k >= 2,
        ;
        assert(d <= c) by (nonlinear_arith)
            requires
                (k - 1) * d <= n - c + (k - 1) - 1,
                n - c <= (k - 1) * c,
                k >= 2,
        ;
    }
}

/// `even_partition(n, k)` is a partition of `n` into `k` parts, none above any bound `cap`
/// that its first part respects, and every other such partition comes after it.
pub proof fn lemma_even_partition(n: nat, k: nat, cap: nat)
    requires
        k <= n,
        n <= u32::MAX,
        k == 0 ==> n == 0,
        k > 0 ==> (n + k - 1) / k as int <= cap,
    ensures
        is_partition(even_partition(n, k), n, k, cap),
        forall|t: Seq<u32>| #[trigger]
            is_partition(t, n, k, cap) ==> t == even_partition(n, k) || lex_lt(
                even_partition(n, k),
                t,
            ),
    decreases k,
{
    let e = even_partition(n, k);
    if k == 0 {
        assert(seq_sum(e) == 0);
        assert forall|t: Seq<u32>| #[trigger] is_partition(t, n, k, cap) implies t == e || lex_lt(
            e,
            t,
        ) by {
            assert(t =~= e);
        }
    } else {
        lemma_even_first(n, k);
        let c = (n + k - 1) / k as int;
        let n2 = (n - c) as nat;
        let k2 = (k - 1) as nat;
        lemma_even_partition(n2, k2, c as nat);
        let rest = even_partition(n2, k2);
        assert(e == seq![c as u32] + rest);
        assert(e.drop_first() =~= rest);
        assert(e[0] == c);
        lemma_partition_cons(e, n, k, cap);
        assert forall|t: Seq<u32>| #[trigger] is_partition(t, n, k, cap) implies t == e || lex_lt(
            e,
            t,
        ) by {
            lemma_partition_cons(t, n, k, cap);
            let t2 = t.drop_first();
            lemma_sum_bounds(t2, 1, t[0] as nat);
            assert(seq_sum(t) == t[0] + seq_sum(t2));
            assert(n <= k * t[0]) by (nonlinear_arith)
                requires
                    seq_sum(t2) <= t2.len() * t[0],
                    t2.len() == k - 1,
                    n == t[0] + seq_sum(t2),
            ;
            assert(t[0] >= c) by (nonlinear_arith)
                requires
                    n <= k * t[0],
                    k * c <= n + k - 1,
                    k * c + k > n + k - 1,
                    k >= 1,
            ;
            if t[0] == c {
                if t2 == rest {
                    assert(t =~= e);
                }
            }
        }
    }
}

/// The ascending listing of all partitions of `n` into `k` parts starts with
/// `even_partition(n, k)` and ends with `top_partition(n, k)`.
pub proof fn lemma_listing_ends(s: Seq<Seq<u32>>, n: nat, k: nat)
    requires
        1 <= k <= n,
        n <= u32::MAX,
        strictly_ascending(s),
        forall|p: Seq<u32>| is_partition(p, n, k, n) <==> #[trigger] s.contains(p),
    ensures
        s.len() > 0,
        s[0] == even_partition(n, k),
        s.last() == top_partition(n, k),
{
    lemma_top_partition(n, k);
    lemma_even_first(n, k);
    lemma_even_partition(n, k, n);
    let g = top_partition(n, k);
    let e = even_partition(n, k);
    assert(s.contains(g));
    let i = choose|i: int| 0 <= i < s.len() && s[i] == g;
    let last = s[s.len() - 1];
    assert(s.contains(last));
    assert(is_partition(last, n, k, n));
    if i < s.len() - 1 {
        assert(lex_lt(s[i], s[s.len() - 1]));
        lemma_lex_irreflexive(g);
        lemma_lex_asymmetric(g, last);
    }
    assert(s.contains(e));
    let i2 = choose|i: int| 0 <= i < s.len() && s[i] == e;
    let first = s[0];
    assert(s.contains(first));
    assert(is_partition(first, n, k, n));
    if i2 > 0 {
        assert(lex_lt(s[0], s[i2]));
        lemma_lex_irreflexive(e);
        lemma_lex_asymmetric(e, first);
    }
}

/// Lending from the start walks the ascending listing backwards, whole: the `j`-th call
/// lends the `j`-th partition from the end of the listing, so each partition once and in
/// descending order, and every call after the first one listed gives `None`.
pub proof fn lemma_lending_run(
    s: Seq<Seq<u32>>,
    n: nat,
    k: nat,
    states: Seq<Seq<u32>>,
    outs: Seq<Option<Seq<u32>>>,
)
    requires
        1 <= k <= n,
        n <= u32::MAX,
        n - k + 2 <= u32::MAX,
        strictly_ascending(s),
        forall|p: Seq<u32>| is_partition(p, n, k, n) <==> #[trigger] s.contains(p),
        states.len() == outs.len() + 1,
        states[0] == start_state(n, k),
        forall|i: int|
            0 <= i < outs.len() ==> lend_step(
                #[trigger] states[i],
                states[i + 1],
                outs[i],
                n,
                k,
            ),
    ensures
        forall|i: int| 0 <= i < outs.len() ==> #[trigger] outs[i] == run_output(s, i),
        s.len() > 0,
        outs.len() > 0 ==> outs[0] == Some(top_partition(n, k)),
        outs.len() >= s.len() ==> outs[s.len() - 1] == Some(even_partition(n, k)),
{
    lemma_lending_prefix(s, n, k, states, outs, outs.len() as int);
    lemma_listing_ends(s, n, k);
}

/// All partitions of `n` into `k` parts, none above `largest`, in ascending lexicographic
/// order.
fn partitions_bounded(n: u32, k: u32, largest: u32) -> (r: Vec<Vec<u32>>)
    requires
        0 < k <= n ==> k * largest <= u32::MAX,
    ensures
        strictly_ascending(views(r@)),
        forall|p: Seq<u32>|
            is_partition(p, n as nat, k as nat, largest as nat) <==> #[trigger] views(r@).contains(p),
    decreases k,
{
    let mut r: Vec<Vec<u32>> = Vec::new();
    if n == 0 && k == 0 {
        r.push(Vec::new());
        proof {
            assert forall|p: Seq<u32>|
                is_partition(p, n as nat, k as nat, largest as nat) <==> #[trigger] views(r@).contains(p) by {
                if is_partition(p, n as nat, k as nat, largest as nat) {
                    assert(p =~= views(r@)[0]);
                }
                if views(r@).contains(p) {
                    assert(p == views(r@)[0]);
                }
            }
        }
        return r;
    }
    if !(k > 0 && n >= k && k * largest >= n) {
        proof {
            assert forall|p: Seq<u32>|
                is_partition(p, n as nat, k as nat, largest as nat) <==> #[trigger] views(r@).contains(p) by {
                if is_partition(p, n as nat, k as nat, largest as nat) {
                    lemma_partition_bounds(p, n as nat, k as nat, largest as nat);
                    if k == 0 {
                        assert(seq_sum(p) == 0);
                    }
                }
            }
        }
        return r;
    }
    let top = if largest < n { largest } else { n };
    let mut step: u64 = 1;
    while step <= top as u64
        invariant
            1 <= k,
            k <= n,
            k * largest <= u32::MAX,
            top <= largest,
            top <= n,
            1 <= step <= top + 1,
            strictly_ascending(views(r@)),
            forall|i: int|
                0 <= i < r@.len() ==> is_partition(#[trigger] views(r@)[i], n as nat, k as nat, largest as nat)
                    && views(r@)[i][0] < step,
            forall|p: Seq<u32>|
                is_partition(p, n as nat, k as nat, largest as nat) && p[0] < step
                    ==> #[trigger] views(r@).contains(p),
        decreases top + 1 - step,
    {
        let next_largest = step as u32;
        proof {
            assert((k - 1) * next_largest <= k * largest) by (nonlinear_arith)
                requires
                    next_largest <= largest,
                    k >= 1,
            ;
        }
        let sub = partitions_bounded(n - next_largest, k - 1, next_largest);
        let ghost r0 = views(r@);
        let mut t: usize = 0;
        while t < sub.len()
            invariant
                1 <= k,
                1 <= next_largest <= top,
                top <= largest,
                top <= n,
                strictly_ascending(views(sub@)),
                forall|p: Seq<u32>|
                    is_partition(p, (n - next_largest) as nat, (k - 1) as nat, next_largest as nat)
                        <==> #[trigger] views(sub@).contains(p),
                t <= sub@.len(),
                views(r@).len() == r0.len() + t,
                forall|i: int| 0 <= i < r0.len() ==> #[trigger] views(r@)[i] == r0[i],
                forall|i: int|
                    0 <= i < t ==> #[trigger] views(r@)[r0.len() + i] == seq![next_largest]
                        + views(sub@)[i],
                strictly_ascending(r0),
                forall|i: int|
                    0 <= i < r0.len() ==> is_partition(#[trigger] r0[i], n as nat, k as nat, largest as nat)
                        && r0[i][0] < next_largest,
            decreases sub@.len() - t,
        {
            let mut v: Vec<u32> = Vec::new();
            v.push(next_largest);
            let mut u: usize = 0;
            while u < sub[t].len()
                invariant
                    t < sub@.len(),
                    u <= sub@[t as int]@.len(),
                    v@ == seq![next_largest] + sub@[t as int]@.take(u as int),
                decreases sub@[t as int]@.len() - u,
            {
                v.push(sub[t][u]);
                proof {
                    assert(sub@[t as int]@.take(u + 1) =~= sub@[t as int]@.take(u as int).push(
                        sub@[t as int]@[u as int],
                    ));
                }
                u = u + 1;
            }
            proof {
                assert(sub@[t as int]@.take(u as int) =~= sub@[t as int]@);
            }
            let ghost before = views(r@);
            r.push(v);
            proof {
                assert(views(r@) =~= before.push(v@));
            }
            t = t + 1;
        }
        proof {
            let rv = views(r@);
            assert forall|i: int| 0 <= i < sub@.len() implies is_partition(
                #[trigger] views(sub@)[i],
                (n - next_largest) as nat,
                (k - 1) as nat,
                next_largest as nat,
            ) by {
                assert(views(sub@).contains(views(sub@)[i]));
            }
            assert forall|i: int|
                0 <= i < rv.len() implies is_partition(#[trigger] rv[i], n as nat, k as nat, largest as nat)
                && rv[i][0] < next_largest + 1 by {
                if i >= r0.len() {
                    let ii = i - r0.len();
                    let q = views(sub@)[ii];
                    assert(views(r@)[r0.len() + ii] == seq![next_largest] + q);
                    assert(rv[i] == seq![next_largest] + q);
                    assert(rv[i].drop_first() =~= q);
                    lemma_partition_cons(rv[i], n as nat, k as nat, largest as nat);
                }
            }
            assert forall|i: int, j: int| 0 <= i < j < rv.len() implies lex_lt(
                #[trigger] rv[i],
                #[trigger] rv[j],
            ) by {
                if i >= r0.len() {
                    let ii = i - r0.len();
                    let jj = j - r0.len();
                    let a = views(sub@)[ii];
                    let b = views(sub@)[jj];
                    assert(views(r@)[r0.len() + ii] == seq![next_largest] + a);
                    assert(views(r@)[r0.len() + jj] == seq![next_largest] + b);
                    assert(rv[i].drop_first() =~= a);
                    assert(rv[j].drop_first() =~= b);
                    assert(lex_lt(a, b));
                } else if j >= r0.len() {
                    let jj = j - r0.len();
                    assert(views(r@)[r0.len() + jj] == seq![next_largest] + views(sub@)[jj]);
                    assert(rv[j][0] == next_largest);
                    assert(rv[i] == r0[i]);
                    assert(r0[i].len() == k);
                    assert(rv[j].len() == k);
                } else {
                    assert(lex_lt(r0[i], r0[j]));
                }
            }
            assert forall|p: Seq<u32>|
                is_partition(p, n as nat, k as nat, largest as nat) && p[0] < next_largest + 1
                    implies #[trigger] rv.contains(p) by {
                if p[0] == next_largest {
                    lemma_partition_cons(p, n as nat, k as nat, largest as nat);
                    let q = p.drop_first();
                    assert(views(sub@).contains(q));
                    let ti = choose|ti: int| 0 <= ti < views(sub@).len() && views(sub@)[ti] == q;
                    assert(rv[r0.len() + ti] == seq![next_largest] + q);
                    assert(p =~= seq![next_largest] + q);
                    assert(rv[r0.len() + ti] == p);
                } else {
                    assert(r0.contains(p));
                    let ii = choose|ii: int| 0 <= ii < r0.len() && r0[ii] == p;
                    assert(rv[ii] == p);
                }
            }
        }
        step = step + 1;
    }
    proof {
        let rv = views(r@);
        assert forall|p: Seq<u32>|
            is_partition(p, n as nat, k as nat, largest as nat) <==> #[trigger] rv.contains(p) by {
            if is_partition(p, n as nat, k as nat, largest as nat) {
                assert(p[0] <= largest);
                lemma_partition_cons(p, n as nat, k as nat, largest as nat);
            }
            if rv.contains(p) {
                let ii = choose|ii: int| 0 <= ii < rv.len() && rv[ii] == p;
                assert(is_partition(rv[ii], n as nat, k as nat, largest as nat));
            }
        }
    }
    r
}

/// All partitions of `n` into exactly `k` positive parts, each listed largest part first,
/// in ascending lexicographic order.
pub fn num_partitions(n: u32, k: u32) -> (r: Vec<Vec<u32>>)
    requires
        0 < k <= n ==> k * n <= u32::MAX,
    ensures
        strictly_ascending(views(r@)),
        forall|p: Seq<u32>|
            is_partition(p, n as nat, k as nat, n as nat) <==> #[trigger] views(r@).contains(p),
{
    partitions_bounded(n, k, n)
}

/// The partitions of `n` into `k` positive parts, largest part first, from the
/// lexicographically greatest down, lent one at a time.
pub struct NumPartitiosIter {
    n: u32,
    k: u32,
    stack: Vec<u32>,
}

/// The state before the first partition: a single part one above the greatest first part.
pub open spec fn start_state(n: nat, k: nat) -> Seq<u32> {
    seq![(n - k + 2) as u32]
}

impl NumPartitiosIter {
    /// Holds the start state, the partition lent last, or nothing once all are lent.
    #[verifier::type_invariant]
    spec fn inv(self) -> bool {
        &&& 1 <= self.k <= self.n
        &&& self.n - self.k + 2 <= u32::MAX
        &&& (self.n - self.k + 1) * self.k <= u32::MAX
        &&& {
            ||| self.stack@ == start_state(self.n as nat, self.k as nat)
            ||| is_partition(self.stack@, self.n as nat, self.k as nat, self.n as nat)
            ||| self.stack@.len() == 0
        }
    }

    /// The number partitioned.
    pub closed spec fn total(&self) -> nat {
        self.n as nat
    }

    /// The number of parts.
    pub closed spec fn parts(&self) -> nat {
        self.k as nat
    }

    /// The start state, the partition lent last, or nothing once all are lent.
    pub closed spec fn current(&self) -> Seq<u32> {
        self.stack@
    }

    /// An iterator over the partitions of `n` into `k` positive parts.
    pub fn new(n: u32, k: u32) -> (it: Self)
        requires
            1 <= k <= n,
            n - k + 2 <= u32::MAX,
            (n - k + 1) * k <= u32::MAX,
        ensures
            it.total() == n,
            it.parts() == k,
            it.current() == start_state(n as nat, k as nat),
    {
        let mut stack = Vec::with_capacity(k as usize);
        stack.push(n - k + 2);
        proof {
            assert(stack@ =~= start_state(n as nat, k as nat));
        }
        NumPartitiosIter { n, k, stack }
    }
}

/// Every partition comes before the start state.
pub proof fn lemma_all_below_start(n: nat, k: nat)
    requires
        1 <= k <= n,
        n - k + 2 <= u32::MAX,
    ensures
        forall|t: Seq<u32>| #[trigger] is_partition(t, n, k, n) ==> lex_lt(t, start_state(n, k)),
{
    assert forall|t: Seq<u32>| #[trigger] is_partition(t, n, k, n) implies lex_lt(
        t,
        start_state(n, k),
    ) by {
        lemma_partition_cons(t, n, k, n);
        lemma_sum_bounds(t.drop_first(), 1, t[0] as nat);
        assert(t[0] < start_state(n, k)[0]);
    }
}

/// An iterator over the partitions of `n` into exactly `k` positive parts, from the
/// lexicographically greatest down.
pub fn num_partitions2(n: u32, k: u32) -> (it: NumPartitiosIter)
    requires
        1 <= k <= n,
        n - k + 2 <= u32::MAX,
        (n - k + 1) * k <= u32::MAX,
    ensures
        it.total() == n,
        it.parts() == k,
        it.current() == start_state(n as nat, k as nat),
{
    NumPartitiosIter::new(n, k)
}

/// Whether a part `part`, lowered by one, leaves no room: it is one, or `room` places of at
/// most `part - 1` cannot hold `rest`.
fn cannot_lower(part: u32, room: u32, rest: u32) -> (b: bool)
    requires
        part >= 1,
        (part - 1) * room <= u32::MAX,
    ensures
        b == (part == 1 || (part - 1) * room < rest),
{
    part == 1 || (part - 1) * room < rest
}

/// No part of a partition of `n` into `k` parts exceeds `n - k + 1`.
pub proof fn lemma_part_at_most(p: Seq<u32>, n: nat, k: nat, i: int)
    requires
        is_partition(p, n, k, n),
        0 <= i < k,
    ensures
        p[i] + k - 1 <= n,
{
    assert(p =~= p.take(i).push(p[i]) + p.skip(i + 1));
    lemma_sum_concat(p.take(i).push(p[i]), p.skip(i + 1));
    lemma_sum_push(p.take(i), p[i]);
    assert forall|x: int| 0 <= x < p.take(i).len() implies 1 <= #[trigger] p.take(i)[x] <= n by {
        assert(p.take(i)[x] == p[x]);
    }
    assert forall|x: int| 0 <= x < p.skip(i + 1).len() implies 1 <= #[trigger] p.skip(i + 1)[x] <= n by {
        assert(p.skip(i + 1)[x] == p[i + 1 + x]);
    }
    lemma_sum_bounds(p.take(i), 1, n);
    lemma_sum_bounds(p.skip(i + 1), 1, n);
    assert(p.take(i).len() * 1 == i);
    assert(p.skip(i + 1).len() * 1 == k - i - 1);
}

/// The sum of the parts held, which must fit in a `u32`.
fn parts_sum(stack: &Vec<u32>) -> (total: u32)
    requires
        seq_sum(stack@) <= u32::MAX,
    ensures
        total == seq_sum(stack@),
{
    let mut total: u32 = 0;
    let mut i: usize = 0;
    while i < stack.len()
        invariant
            i <= stack@.len(),
            total == seq_sum(stack@.take(i as int)),
            seq_sum(stack@) <= u32::MAX,
        decreases stack@.len() - i,
    {
        proof {
            lemma_sum_push(stack@.take(i as int), stack@[i as int]);
            assert(stack@.take(i + 1) =~= stack@.take(i as int).push(stack@[i as int]));
            lemma_prefix_sum(stack@, i + 1);
        }
        total = total + stack[i];
        i = i + 1;
    }
    proof {
        assert(stack@.take(i as int) =~= stack@);
    }
    total
}

/// The state `p` is the start state or a partition.
pub open spec fn live_state(p: Seq<u32>, n: nat, k: nat) -> bool {
    p == start_state(n, k) || is_partition(p, n, k, n)
}

/// Pops parts from the end of `p` until one that can be lowered is popped, and gives it;
/// gives `None`, with everything popped, when no part can be lowered, and then no partition
/// comes before `p`.
fn pop_to_lowerable(stack: &mut Vec<u32>, n: u32, k: u32, Ghost(p): Ghost<Seq<u32>>) -> (r: Option<u32>)
    requires
        old(stack)@ == p,
        p.len() >= 1,
        live_state(p, n as nat, k as nat),
        1 <= k <= n,
        n - k + 2 <= u32::MAX,
        (n - k + 1) * k <= u32::MAX,
    ensures
        r is None ==> final(stack)@.len() == 0 && !exists_below(p, n as nat, k as nat),
        r matches Some(v) ==> {
            let i = final(stack)@.len() as int;
            &&& i < p.len()
            &&& final(stack)@ == p.take(i)
            &&& v == p[i]
            &&& can_lower_at(p, n as nat, k as nat, i)
            &&& forall|j: int| i < j < p.len() ==> !#[trigger] can_lower_at(p, n as nat, k as nat, j)
        },
{
    let ghost is_start = p == start_state(n as nat, k as nat);
    proof {
        if is_start {
            assert(seq_sum(p) == n - k + 2) by {
                assert(p.drop_first() =~= Seq::<u32>::empty());
                assert(seq_sum(Seq::<u32>::empty()) == 0);
                assert(p[0] == n - k + 2);
            }
        }
    }
    let mut total = parts_sum(stack);
    let mut prev_choice = stack.pop().unwrap();
    proof {
        assert(p.take(p.len() - 1) =~= stack@);
        lemma_sum_push(stack@, prev_choice);
        assert(p =~= stack@.push(prev_choice));
        lemma_sum_nonneg(stack@);
        if !is_start {
            assert(prev_choice >= 1);
            assert(prev_choice == p[p.len() - 1]);
            lemma_part_at_most(p, n as nat, k as nat, p.len() - 1);
        }
        assert((prev_choice - 1) * (k - stack@.len()) <= (n - k + 1) * k) by (nonlinear_arith)
            requires
                prev_choice - 1 <= n - k + 1,
                k - stack@.len() <= k,
                prev_choice >= 1,
                stack@.len() <= k,
        ;
    }
    total = total - prev_choice;
    while cannot_lower(prev_choice, k - stack.len() as u32, n - total)
        invariant
            live_state(p, n as nat, k as nat),
            is_start == (p == start_state(n as nat, k as nat)),
            is_start ==> stack@.len() == 0,
            1 <= k <= n,
            n - k + 2 <= u32::MAX,
            (n - k + 1) * k <= u32::MAX,
            (prev_choice - 1) * (k - stack@.len()) <= (n - k + 1) * k,
            stack@.len() < p.len(),
            stack@ == p.take(stack@.len() as int),
            prev_choice == p[stack@.len() as int],
            prev_choice >= 1,
            total == seq_sum(stack@),
            total <= n,
            forall|j: int|
                stack@.len() < j < p.len() ==> !#[trigger] can_lower_at(p, n as nat, k as nat, j),
        decreases stack@.len(),
    {
        proof {
            if is_start {
                assert((n - k + 1) * k >= n) by (nonlinear_arith)
                    requires
                        1 <= k <= n,
                ;
            }
            assert(!can_lower_at(p, n as nat, k as nat, stack@.len() as int));
            lemma_sum_nonneg(stack@);
        }
        let popped = stack.pop();
        if popped.is_none() {
            proof {
                assert forall|t: Seq<u32>| #[trigger] is_partition(t, n as nat, k as nat, n as nat)
                    implies !lex_lt(t, p) by {
                    if lex_lt(t, p) {
                        lemma_lex_witness(t, p);
                        let j = choose|j: int|
                            0 <= j < t.len() && j < p.len() && t.take(j) == p.take(j) && #[trigger] t[j]
                                < p[j];
                        lemma_below_can_lower(p, t, n as nat, k as nat, j);
                    }
                }
            }
            return None;
        }
        let x = popped.unwrap();
        proof {
            let len = stack@.len() as int;
            assert(p.take(len + 1) =~= stack@.push(x));
            lemma_sum_push(stack@, x);
            lemma_prefix_sum(p, len);
            lemma_sum_nonneg(stack@);
            assert(x == p[len]);
            assert(1 <= x <= n);
            lemma_part_at_most(p, n as nat, k as nat, len);
            assert((x - 1) * (k - len) <= (n - k + 1) * k) by (nonlinear_arith)
                requires
                    x - 1 <= n - k + 1,
                    k - len <= k,
                    x >= 1,
                    0 <= len <= k,
            ;
        }
        prev_choice = x;
        total = total - if x < n {
            x
        } else {
            n
        };
    }
    Some(prev_choice)
}

/// Appends `greedy_fill(n - sum, k - len, cap)` to `stack`.
fn refill(stack: &mut Vec<u32>, n: u32, k: u32, cap: u32)
    requires
        1 <= cap,
        old(stack)@.len() <= k,
        seq_sum(old(stack)@) <= n,
        k - old(stack)@.len() <= n - seq_sum(old(stack)@) <= (k - old(stack)@.len()) * cap,
    ensures
        final(stack)@ == old(stack)@ + greedy_fill(
            (n - seq_sum(old(stack)@)) as nat,
            (k - old(stack)@.len()) as nat,
            cap as nat,
        ),
{
    let ghost q = old(stack)@ + greedy_fill(
        (n - seq_sum(old(stack)@)) as nat,
        (k - old(stack)@.len()) as nat,
        cap as nat,
    );
    let mut total = parts_sum(stack);
    let mut remaining: u32 = k - stack.len() as u32;
    while remaining > 0
        invariant
            1 <= cap,
            total <= n,
            remaining as nat + stack@.len() == k,
            remaining <= n - total <= remaining * cap,
            total == seq_sum(stack@),
            stack@ + greedy_fill((n - total) as nat, remaining as nat, cap as nat) == q,
        decreases remaining,
    {
        let ghost before = stack@;
        let ghost avail = (n - total) as nat;
        remaining = remaining - 1;
        let choice = if n - total - remaining < cap {
            n - total - remaining
        } else {
            cap
        };
        proof {
            let rest = greedy_fill((avail - choice) as nat, remaining as nat, cap as nat);
            assert(greedy_fill(avail, (remaining + 1) as nat, cap as nat) == seq![choice] + rest);
            assert(before + (seq![choice] + rest) =~= before.push(choice) + rest);
            lemma_sum_push(before, choice);
            assert(avail - choice <= remaining * cap) by (nonlinear_arith)
                requires
                    avail <= (remaining + 1) * cap,
                    choice == cap || (choice == avail - remaining && choice < cap),
                    cap >= 1,
                    remaining <= avail - choice,
            ;
        }
        stack.push(choice);
        total = total + choice;
    }
    proof {
        assert(greedy_fill((n - total) as nat, 0, cap as nat) =~= Seq::<u32>::empty());
        assert(stack@ =~= q);
    }
}

/// The candidate built at the last position `i` of `p` that can be lowered is the greatest
/// partition before `p`.
proof fn lemma_next_is_greatest(p: Seq<u32>, q: Seq<u32>, n: nat, k: nat, i: int)
    requires
        live_state(p, n, k),
        1 <= k <= n,
        n - k + 2 <= u32::MAX,
        0 <= i < p.len(),
        can_lower_at(p, n, k, i),
        forall|j: int| i < j < p.len() ==> !#[trigger] can_lower_at(p, n, k, j),
        q == p.take(i) + seq![(p[i] - 1) as u32] + greedy_fill(
            (n - seq_sum(p.take(i)) - (p[i] - 1)) as nat,
            (k - i - 1) as nat,
            (p[i] - 1) as nat,
        ),
    ensures
        greatest_below(q, p, n, k),
{
    let pre = p.take(i);
    let v = p[i] as nat;
    let is_start = p == start_state(n, k);
    lemma_prefix_sum(p, i);
    if is_start {
        assert(pre =~= Seq::<u32>::empty());
        assert(seq_sum(pre) == 0);
        assert(v == n - k + 2);
        lemma_all_below_start(n, k);
    } else {
        let rest = p.skip(i + 1);
        assert forall|x: int| 0 <= x < rest.len() implies 1 <= #[trigger] rest[x] <= n by {
            assert(rest[x] == p[i + 1 + x]);
        }
        lemma_sum_bounds(rest, 1, n);
        assert(rest.len() * 1 == rest.len());
        assert(p.skip(i).drop_first() =~= rest);
        assert(seq_sum(p.skip(i)) == p[i] + seq_sum(rest));
        assert(pre.len() > 0 ==> pre.last() >= v) by {
            if pre.len() > 0 {
                assert(p[i - 1] >= p[i]);
            }
        }
    }
    lemma_candidate_valid(pre, v, n, k, q);
    lemma_candidate_greatest(pre, v, n, k, q);
    lemma_lex_from_witness(q, p, i);
    assert forall|t: Seq<u32>| #[trigger] is_partition(t, n, k, n) && lex_lt(t, p) implies t == q
        || lex_lt(t, q) by {
        lemma_lex_witness(t, p);
        let j = choose|j: int|
            0 <= j < t.len() && j < p.len() && t.take(j) == p.take(j) && #[trigger] t[j] < p[j];
        if !is_start {
            lemma_below_can_lower(p, t, n, k, j);
        }
        if j < i {
            assert(q.take(j) =~= p.take(j)) by {
                assert(q.take(i) == pre);
                assert(q.take(j) =~= q.take(i).take(j));
                assert(p.take(j) =~= p.take(i).take(j));
            }
            assert(q[j] == p[j]) by {
                assert(q.take(i)[j] == pre[j]);
            }
            lemma_lex_from_witness(t, q, j);
        } else {
            assert(j == i);
        }
    }
}

impl crate::owned_iterator::OwnedIterator for NumPartitiosIter {
    type Item<'a> = &'a [u32];

    /// Lends the greatest partition that comes before the one lent last (before every
    /// partition, at the start), or gives `None` when there is none.
    fn next<'a>(&'a mut self) -> (r: Option<&'a [u32]>)
        ensures
            final(self).total() == old(self).total(),
            final(self).parts() == old(self).parts(),
            r is Some <==> exists_below(old(self).current(), old(self).total(), old(self).parts()),
            r matches Some(q) ==> q@ == final(self).current() && greatest_below(
                q@,
                old(self).current(),
                old(self).total(),
                old(self).parts(),
            ),
            r is None ==> final(self).current() == Seq::<u32>::empty(),
    {
        proof {
            use_type_invariant(&*self);
        }
        let n = self.n;
        let k = self.k;
        let mut stack: Vec<u32> = Vec::new();
        std::mem::swap(&mut stack, &mut self.stack);
        let ghost p = stack@;
        if stack.len() == 0 {
            proof {
                assert forall|t: Seq<u32>| #[trigger] is_partition(t, n as nat, k as nat, n as nat)
                    implies !lex_lt(t, p) by {}
            }
            return None;
        }
        let found = pop_to_lowerable(&mut stack, n, k, Ghost(p));
        if found.is_none() {
            return None;
        }
        let prev_choice = found.unwrap();
        let ghost i = stack@.len() as int;
        proof {
            lemma_prefix_sum(p, i);
            if p == start_state(n as nat, k as nat) {
                assert(stack@ =~= Seq::<u32>::empty());
                assert(seq_sum(stack@) == 0);
            } else {
                let rest = p.skip(i + 1);
                assert forall|x: int| 0 <= x < rest.len() implies 1 <= #[trigger] rest[x] <= n by {
                    assert(rest[x] == p[i + 1 + x]);
                }
                lemma_sum_bounds(rest, 1, n as nat);
                assert(rest.len() * 1 == rest.len());
                assert(p.skip(i).drop_first() =~= rest);
                assert(seq_sum(p.skip(i)) == p[i] + seq_sum(rest));
            }
            lemma_sum_push(stack@, (prev_choice - 1) as u32);
            let c = (prev_choice - 1) as nat;
            let slots = (k - i - 1) as nat;
            assert(n - seq_sum(stack@) - c <= slots * c) by (nonlinear_arith)
                requires
                    n - seq_sum(stack@) <= c * (slots + 1),
            ;
        }
        let ghost pre = stack@;
        stack.push(prev_choice - 1);
        refill(&mut stack, n, k, prev_choice - 1);
        proof {
            let q = stack@;
            assert(q =~= pre + seq![(prev_choice - 1) as u32] + greedy_fill(
                (n - seq_sum(pre) - (prev_choice - 1)) as nat,
                (k - i - 1) as nat,
                (prev_choice - 1) as nat,
            ));
            lemma_next_is_greatest(p, q, n as nat, k as nat, i);
        }
        self.stack = stack;
        Some(self.stack.as_slice())
    }
}

} // verus!
