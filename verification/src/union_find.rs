//! A union-find (disjoint set) structure over hashed keys, with path splitting,
//! per-group sizes and per-group metadata that is combined on union.

use std::collections::{HashMap, HashSet};
use std::hash::Hash;
use std::ops::Add;
use vstd::prelude::*;
use vstd::std_specs::ops::AddSpec;

verus! {

/// The keys a `UnionFind` can hold: copyable values that hash consistently and
/// whose executable equality agrees with equality of values.
pub trait UnionFindKey: Copy + Eq + Hash + Sized {
    /// Compares two keys.
    fn same_key(&self, other: &Self) -> (b: bool)
        ensures
            b == (*self == *other),
    ;

    /// The key type obeys the hash-table model that `HashMap`'s specification rests on.
    proof fn lemma_obeys_key_model()
        ensures
            vstd::std_specs::hash::obeys_key_model::<Self>(),
    ;
}

impl UnionFindKey for u32 {
    fn same_key(&self, other: &Self) -> (b: bool) {
        *self == *other
    }

    proof fn lemma_obeys_key_model() {
    }
}

impl UnionFindKey for u64 {
    fn same_key(&self, other: &Self) -> (b: bool) {
        *self == *other
    }

    proof fn lemma_obeys_key_model() {
    }
}

impl UnionFindKey for usize {
    fn same_key(&self, other: &Self) -> (b: bool) {
        *self == *other
    }

    proof fn lemma_obeys_key_model() {
    }
}

impl UnionFindKey for i32 {
    fn same_key(&self, other: &Self) -> (b: bool) {
        *self == *other
    }

    proof fn lemma_obeys_key_model() {
    }
}

impl UnionFindKey for i64 {
    fn same_key(&self, other: &Self) -> (b: bool) {
        *self == *other
    }

    proof fn lemma_obeys_key_model() {
    }
}

/// Metadata that carries no information; combining two of them gives another.
#[derive(Clone, Copy)]
pub struct EmptyMetadata();

impl Default for EmptyMetadata {
    fn default() -> (r: Self)
        ensures
            r == EmptyMetadata(),
    {
        EmptyMetadata()
    }
}

impl Add for EmptyMetadata {
    type Output = EmptyMetadata;

    fn add(self, _rhs: Self) -> (r: Self::Output) {
        EmptyMetadata()
    }
}

impl vstd::std_specs::ops::AddSpecImpl for EmptyMetadata {
    open spec fn obeys_add_spec() -> bool {
        true
    }

    open spec fn add_req(self, rhs: Self) -> bool {
        true
    }

    open spec fn add_spec(self, rhs: Self) -> Self {
        EmptyMetadata()
    }
}

/// What the structure stores for each key.
#[derive(Clone, Copy)]
pub struct UfEntry<K, M> {
    pub metadata: M,
    pub parent_key: K,
    pub subtree_size: usize,
}

/// Follows parent links from `k` for at most `n` steps, stopping early at a key that is its
/// own parent.
pub open spec fn walk<K, M>(m: Map<K, UfEntry<K, M>>, k: K, n: nat) -> K
    decreases n,
{
    if n == 0 || m[k].parent_key == k {
        k
    } else {
        walk(m, m[k].parent_key, (n - 1) as nat)
    }
}

/// The parent links of `m` are closed over its keys and strictly increase `rank`, which stays
/// below `bound`. Under this condition every walk of `bound` steps ends at a root.
pub open spec fn ranked<K, M>(m: Map<K, UfEntry<K, M>>, rank: Map<K, nat>, bound: nat) -> bool {
    &&& forall|k: K| m.contains_key(k) ==> m.contains_key(#[trigger] m[k].parent_key)
    &&& forall|k: K| #[trigger] m.contains_key(k) ==> rank.contains_key(k) && rank[k] < bound
    &&& forall|k: K|
        m.contains_key(k) && #[trigger] m[k].parent_key != k ==> rank[k] < rank[m[k].parent_key]
}

/// The representative of `k`: the root reached from it.
pub open spec fn root_in<K, M>(m: Map<K, UfEntry<K, M>>, bound: nat, k: K) -> K {
    walk(m, k, bound)
}

/// Whether the walk from `start` passes `k` within its first `n` steps.
pub open spec fn walked_before<K, M>(m: Map<K, UfEntry<K, M>>, start: K, n: nat, k: K) -> bool {
    exists|i: nat| i < n && #[trigger] walk(m, start, i) == k
}

/// Whether the walk from `start` passes `k`.
pub open spec fn on_walk<K, M>(m: Map<K, UfEntry<K, M>>, start: K, k: K) -> bool {
    exists|i: nat| #[trigger] walk(m, start, i) == k
}

/// The entries after splitting the path from `start`: each key on the walk from `start`
/// points at its former grandparent; every other entry, and everything but the parent
/// link, stays as it was.
pub open spec fn split_path<K, M>(m: Map<K, UfEntry<K, M>>, start: K) -> Map<K, UfEntry<K, M>> {
    Map::new(
        |k: K| m.contains_key(k),
        |k: K|
            if on_walk(m, start, k) {
                UfEntry { parent_key: m[m[k].parent_key].parent_key, ..m[k] }
            } else {
                m[k]
            },
    )
}

/// One more step of a walk takes one more link, unless the walk stands at a root.
pub proof fn lemma_walk_succ<K, M>(m: Map<K, UfEntry<K, M>>, s: K, n: nat)
    ensures
        walk(m, s, n + 1) == (if m[walk(m, s, n)].parent_key == walk(m, s, n) {
            walk(m, s, n)
        } else {
            m[walk(m, s, n)].parent_key
        }),
    decreases n,
{
    if n == 0 {
        reveal_with_fuel(walk, 2);
    } else if m[s].parent_key != s {
        lemma_walk_succ(m, m[s].parent_key, (n - 1) as nat);
        assert(walk(m, s, n + 1) == walk(m, m[s].parent_key, n));
        assert(walk(m, s, n) == walk(m, m[s].parent_key, (n - 1) as nat));
    }
}

/// The entries after splitting the first `n` steps of the path from `start`.
pub open spec fn split_prefix<K, M>(m: Map<K, UfEntry<K, M>>, start: K, n: nat) -> Map<
    K,
    UfEntry<K, M>,
> {
    Map::new(
        |k: K| m.contains_key(k),
        |k: K|
            if walked_before(m, start, n, k) {
                UfEntry { parent_key: m[m[k].parent_key].parent_key, ..m[k] }
            } else {
                m[k]
            },
    )
}

/// Splitting one more step of the path: the key reached after `n` steps, not a root, and
/// its parent still have their first entries; the key is pointed at its grandparent, and
/// the walk goes on to its parent, of higher rank than every key passed.
proof fn lemma_split_step<K, M>(
    m0: Map<K, UfEntry<K, M>>,
    m1: Map<K, UfEntry<K, M>>,
    rank: Map<K, nat>,
    b: nat,
    p0: K,
    n: nat,
)
    requires
        ranked(m0, rank, b),
        m0.contains_key(p0),
        m1 == split_prefix(m0, p0, n),
        forall|i: nat| i < n ==> #[trigger] rank[walk(m0, p0, i)] < rank[walk(m0, p0, n)],
        m0[walk(m0, p0, n)].parent_key != walk(m0, p0, n),
    ensures
        ({
            let x = walk(m0, p0, n);
            let g = m0[x].parent_key;
            &&& m0.contains_key(x)
            &&& m1[x] == m0[x]
            &&& m1[g] == m0[g]
            &&& walk(m0, p0, n + 1) == g
            &&& forall|i: nat| i < n + 1 ==> #[trigger] rank[walk(m0, p0, i)] < rank[g]
            &&& m1.insert(x, UfEntry { parent_key: m0[g].parent_key, ..m0[x] }) == split_prefix(
                m0,
                p0,
                n + 1,
            )
        }),
{
    let x = walk(m0, p0, n);
    let g = m0[x].parent_key;
    lemma_walk_in_dom(m0, p0, n);
    assert(rank[x] < rank[g]);
    if walked_before(m0, p0, n, x) {
        let i = choose|i: nat| i < n && #[trigger] walk(m0, p0, i) == x;
        assert(rank[walk(m0, p0, i)] < rank[x]);
    }
    if walked_before(m0, p0, n, g) {
        let i = choose|i: nat| i < n && #[trigger] walk(m0, p0, i) == g;
        assert(rank[walk(m0, p0, i)] < rank[x]);
    }
    lemma_walk_succ(m0, p0, n);
    assert forall|i: nat| i < n + 1 implies #[trigger] rank[walk(m0, p0, i)] < rank[g] by {
        if i < n {
            assert(rank[walk(m0, p0, i)] < rank[x]);
        }
    }
    assert forall|k: K| #[trigger]
        m0.contains_key(k) implies walked_before(m0, p0, n + 1, k) == (walked_before(m0, p0, n, k)
        || k == x) by {
        if walked_before(m0, p0, n + 1, k) && k != x {
            let i = choose|i: nat| i < n + 1 && #[trigger] walk(m0, p0, i) == k;
            assert(i < n);
        }
        if k == x {
            assert(walk(m0, p0, n) == k);
        }
    }
    assert(m1.insert(x, UfEntry { parent_key: m0[g].parent_key, ..m0[x] }) =~= split_prefix(
        m0,
        p0,
        n + 1,
    ));
}

/// Once the walk from `start` stands at a root after `n` steps, and the keys passed all have
/// lower rank than it, splitting those `n` steps splits the whole path.
proof fn lemma_split_done<K, M>(m0: Map<K, UfEntry<K, M>>, rank: Map<K, nat>, b: nat, p0: K, n: nat)
    requires
        ranked(m0, rank, b),
        m0.contains_key(p0),
        forall|i: nat| i < n ==> #[trigger] rank[walk(m0, p0, i)] < rank[walk(m0, p0, n)],
        m0[walk(m0, p0, n)].parent_key == walk(m0, p0, n),
    ensures
        split_prefix(m0, p0, n) == split_path(m0, p0),
{
    let r = walk(m0, p0, n);
    if walked_before(m0, p0, n, r) {
        let i = choose|i: nat| i < n && #[trigger] walk(m0, p0, i) == r;
        assert(rank[walk(m0, p0, i)] < rank[r]);
    }
    assert forall|k: K| #[trigger] m0.contains_key(k) implies split_prefix(m0, p0, n)[k]
        == split_path(m0, p0)[k] by {
        if on_walk(m0, p0, k) && !walked_before(m0, p0, n, k) {
            let i = choose|i: nat| #[trigger] walk(m0, p0, i) == k;
            if i < n {
                assert(walked_before(m0, p0, n, k));
            }
            lemma_walk_stays(m0, p0, n, (i - n) as nat);
            assert(k == r);
        }
        if walked_before(m0, p0, n, k) {
            let i = choose|i: nat| i < n && #[trigger] walk(m0, p0, i) == k;
            assert(walk(m0, p0, i) == k);
        }
    }
    assert(split_prefix(m0, p0, n) =~= split_path(m0, p0));
}

/// A walk that reaches a root stays there.
pub proof fn lemma_walk_stays<K, M>(m: Map<K, UfEntry<K, M>>, s: K, n: nat, j: nat)
    requires
        m[walk(m, s, n)].parent_key == walk(m, s, n),
    ensures
        walk(m, s, n + j) == walk(m, s, n),
    decreases j,
{
    if j > 0 {
        lemma_walk_stays(m, s, n, (j - 1) as nat);
        lemma_walk_succ(m, s, (n + j - 1) as nat);
    }
}

/// A walk from a key held stays among the keys held.
pub proof fn lemma_walk_in_dom<K, M>(m: Map<K, UfEntry<K, M>>, s: K, n: nat)
    requires
        m.contains_key(s),
        forall|k: K| m.contains_key(k) ==> m.contains_key(#[trigger] m[k].parent_key),
    ensures
        m.contains_key(walk(m, s, n)),
    decreases n,
{
    if n > 0 && m[s].parent_key != s {
        lemma_walk_in_dom(m, m[s].parent_key, (n - 1) as nat);
    }
}

/// Any walk that is long enough ends at the same root.
pub proof fn lemma_walk_settles<K, M>(
    m: Map<K, UfEntry<K, M>>,
    rank: Map<K, nat>,
    bound: nat,
    k: K,
    n: nat,
)
    requires
        ranked(m, rank, bound),
        m.contains_key(k),
        n >= bound - rank[k],
    ensures
        walk(m, k, n) == walk(m, k, (bound - rank[k]) as nat),
        m.contains_key(walk(m, k, n)),
        m[walk(m, k, n)].parent_key == walk(m, k, n),
    decreases bound - rank[k],
{
    let p = m[k].parent_key;
    if p != k {
        assert(m.contains_key(p));
        lemma_walk_settles(m, rank, bound, p, (n - 1) as nat);
        lemma_walk_settles(m, rank, bound, p, (bound - rank[k] - 1) as nat);
    }
}

/// A key that is not a root has the same representative as its parent.
pub proof fn lemma_root_step<K, M>(m: Map<K, UfEntry<K, M>>, rank: Map<K, nat>, bound: nat, k: K)
    requires
        ranked(m, rank, bound),
        m.contains_key(k),
    ensures
        root_in(m, bound, k) == root_in(m, bound, m[k].parent_key),
        m.contains_key(root_in(m, bound, k)),
        m[root_in(m, bound, k)].parent_key == root_in(m, bound, k),
{
    let p = m[k].parent_key;
    lemma_walk_settles(m, rank, bound, k, bound);
    if p != k {
        lemma_walk_settles(m, rank, bound, p, (bound - 1) as nat);
        lemma_walk_settles(m, rank, bound, p, bound);
    }
}


/// Pointing a non-root `x` at its grandparent keeps every key's representative.
proof fn lemma_halve_root_one<K, M>(
    m: Map<K, UfEntry<K, M>>,
    m2: Map<K, UfEntry<K, M>>,
    rank: Map<K, nat>,
    bound: nat,
    x: K,
    y: K,
)
    requires
        ranked(m, rank, bound),
        ranked(m2, rank, bound),
        m2.dom() == m.dom(),
        m.contains_key(x),
        m[x].parent_key != x,
        m2[x].parent_key == m[m[x].parent_key].parent_key,
        forall|k: K| #[trigger] m.contains_key(k) && k != x ==> m2[k].parent_key == m[k].parent_key,
        m.contains_key(y),
    ensures
        root_in(m2, bound, y) == root_in(m, bound, y),
    decreases bound - rank[y],
{
    lemma_root_step(m2, rank, bound, y);
    lemma_root_step(m, rank, bound, y);
    let p2 = m2[y].parent_key;
    if p2 != y {
        lemma_halve_root_one(m, m2, rank, bound, x, p2);
        if y == x {
            let g = m[x].parent_key;
            lemma_root_step(m, rank, bound, g);
        }
    }
}

/// Pointing `x` at its grandparent: the links stay ranked and no representative changes.
pub proof fn lemma_halve<K, M>(
    m: Map<K, UfEntry<K, M>>,
    m2: Map<K, UfEntry<K, M>>,
    rank: Map<K, nat>,
    bound: nat,
    x: K,
)
    requires
        ranked(m, rank, bound),
        m2.dom() == m.dom(),
        m.contains_key(x),
        m[x].parent_key != x,
        m2[x].parent_key == m[m[x].parent_key].parent_key,
        forall|k: K| #[trigger] m.contains_key(k) && k != x ==> m2[k].parent_key == m[k].parent_key,
    ensures
        ranked(m2, rank, bound),
        forall|y: K| #[trigger] m.contains_key(y) ==> root_in(m2, bound, y) == root_in(m, bound, y),
{
    let g = m[x].parent_key;
    assert(m.contains_key(g));
    assert forall|k: K| #[trigger] m2.contains_key(k) && m2[k].parent_key != k implies rank[k]
        < rank[m2[k].parent_key] by {
        if k == x {
            if m[g].parent_key != g {
                assert(rank[g] < rank[m[g].parent_key]);
            }
        }
    }
    assert forall|k: K| #[trigger] m2.contains_key(k) implies m2.contains_key(m2[k].parent_key) by {
        if k == x {
            assert(m.contains_key(g));
        }
    }
    assert forall|y: K| #[trigger] m.contains_key(y) implies root_in(m2, bound, y) == root_in(
        m,
        bound,
        y,
    ) by {
        lemma_halve_root_one(m, m2, rank, bound, x, y);
    }
}

/// Linking root `r2` under root `r1` sends the members of `r2`'s group to `r1`.
proof fn lemma_link_root_one<K, M>(
    m: Map<K, UfEntry<K, M>>,
    m2: Map<K, UfEntry<K, M>>,
    rank: Map<K, nat>,
    bound: nat,
    rank2: Map<K, nat>,
    bound2: nat,
    r1: K,
    r2: K,
    y: K,
)
    requires
        ranked(m, rank, bound),
        ranked(m2, rank2, bound2),
        m2.dom() == m.dom(),
        m.contains_key(r1),
        m.contains_key(r2),
        r1 != r2,
        m[r1].parent_key == r1,
        m[r2].parent_key == r2,
        m2[r2].parent_key == r1,
        forall|k: K| #[trigger] m.contains_key(k) && k != r2 ==> m2[k].parent_key == m[k].parent_key,
        m.contains_key(y),
    ensures
        root_in(m2, bound2, y) == (if root_in(m, bound, y) == r2 {
            r1
        } else {
            root_in(m, bound, y)
        }),
    decreases bound2 - rank2[y],
{
    lemma_root_step(m2, rank2, bound2, y);
    lemma_root_step(m, rank, bound, y);
    lemma_root_step(m, rank, bound, r1);
    let p2 = m2[y].parent_key;
    if p2 != y {
        lemma_link_root_one(m, m2, rank, bound, rank2, bound2, r1, r2, p2);
    }
}

/// Linking root `r2` under root `r1`, with `r1`'s rank raised above `r2`'s.
pub proof fn lemma_link<K, M>(
    m: Map<K, UfEntry<K, M>>,
    m2: Map<K, UfEntry<K, M>>,
    rank: Map<K, nat>,
    bound: nat,
    r1: K,
    r2: K,
)
    requires
        ranked(m, rank, bound),
        m2.dom() == m.dom(),
        m.contains_key(r1),
        m.contains_key(r2),
        r1 != r2,
        m[r1].parent_key == r1,
        m[r2].parent_key == r2,
        m2[r2].parent_key == r1,
        forall|k: K| #[trigger] m.contains_key(k) && k != r2 ==> m2[k].parent_key == m[k].parent_key,
    ensures
        ranked(m2, link_rank(rank, r1, r2), link_bound(rank, bound, r1, r2)),
        forall|y: K| #[trigger]
            m.contains_key(y) ==> root_in(m2, link_bound(rank, bound, r1, r2), y) == (if root_in(
                m,
                bound,
                y,
            ) == r2 {
                r1
            } else {
                root_in(m, bound, y)
            }),
{
    let rank2 = link_rank(rank, r1, r2);
    let bound2 = link_bound(rank, bound, r1, r2);
    assert forall|k: K| #[trigger] m2.contains_key(k) && m2[k].parent_key != k implies rank2[k]
        < rank2[m2[k].parent_key] by {
        if k != r2 && k != r1 {
            assert(rank[k] < rank[m[k].parent_key]);
        }
    }
    assert forall|k: K| #[trigger] m2.contains_key(k) implies m2.contains_key(m2[k].parent_key)
        && rank2.contains_key(k) && rank2[k] < bound2 by {
        assert(m.contains_key(m[k].parent_key));
    }
    assert forall|y: K| #[trigger] m.contains_key(y) implies root_in(m2, bound2, y) == (if root_in(
        m,
        bound,
        y,
    ) == r2 {
        r1
    } else {
        root_in(m, bound, y)
    }) by {
        lemma_link_root_one(m, m2, rank, bound, rank2, bound2, r1, r2, y);
    }
}

/// Ranks after linking `r2` under `r1`.
pub open spec fn link_rank<K>(rank: Map<K, nat>, r1: K, r2: K) -> Map<K, nat> {
    rank.insert(r1, if rank[r1] > rank[r2] { rank[r1] } else { rank[r2] + 1 })
}

/// Rank bound after linking `r2` under `r1`.
pub open spec fn link_bound<K>(rank: Map<K, nat>, bound: nat, r1: K, r2: K) -> nat {
    let r = link_rank(rank, r1, r2)[r1];
    if r + 1 > bound { r + 1 } else { bound }
}

/// Merging the group of `r2` into that of `r1`: `r2` stops being a representative and the
/// group of `r1` becomes the disjoint union of the two groups.
pub proof fn lemma_merge_groups<K>(root: Map<K, K>, root2: Map<K, K>, r1: K, r2: K)
    requires
        root.dom().finite(),
        root2.dom() == root.dom(),
        root.contains_key(r1),
        root.contains_key(r2),
        root[r1] == r1,
        root[r2] == r2,
        r1 != r2,
        forall|k: K| #[trigger]
            root.contains_key(k) ==> root2[k] == (if root[k] == r2 {
                r1
            } else {
                root[k]
            }),
    ensures
        roots_of(root).contains(r2),
        roots_of(root2) == roots_of(root).remove(r2),
        class_of(root, r1).disjoint(class_of(root, r2)),
        class_of(root2, r1) == class_of(root, r1) + class_of(root, r2),
        forall|r: K| r != r1 && r != r2 ==> #[trigger] class_of(root2, r) == class_of(root, r),
{
    assert(roots_of(root2) =~= roots_of(root).remove(r2));
    assert(class_of(root2, r1) =~= class_of(root, r1) + class_of(root, r2));
    assert forall|r: K| r != r1 && r != r2 implies #[trigger] class_of(root2, r) == class_of(
        root,
        r,
    ) by {
        assert(class_of(root2, r) =~= class_of(root, r));
    }
}

/// `HashMap::get_mut` on a key the map holds. Claims: the reference given out points at the
/// value stored for `k`, and afterwards the map holds, for `k`, whatever was left behind that
/// reference, and is otherwise unchanged.
#[verifier::external_body]
fn hash_map_get_mut<'a, K: UnionFindKey, V>(m: &'a mut HashMap<K, V>, k: &K) -> (r: &'a mut V)
    requires
        old(m)@.contains_key(*k),
    ensures
        *r == old(m)@[*k],
        final(m)@ == old(m)@.insert(*k, *final(r)),
{
    m.get_mut(k).unwrap()
}

/// Walks only look at parent links.
pub proof fn lemma_walk_same_links<K, M>(
    m: Map<K, UfEntry<K, M>>,
    m2: Map<K, UfEntry<K, M>>,
    k: K,
    n: nat,
)
    requires
        m2.dom() == m.dom(),
        forall|j: K| #[trigger] m.contains_key(j) ==> m2[j].parent_key == m[j].parent_key,
        m.contains_key(k),
        forall|j: K| #[trigger] m.contains_key(j) ==> m.contains_key(m[j].parent_key),
    ensures
        walk(m2, k, n) == walk(m, k, n),
    decreases n,
{
    if n > 0 && m[k].parent_key != k {
        lemma_walk_same_links(m, m2, m[k].parent_key, (n - 1) as nat);
    }
}

/// Initializers that pair each key with one and the same value leave every key with that
/// value.
pub proof fn lemma_initial_metadata_constant<K, M>(s: Seq<(K, M)>, keys: Seq<K>, d: M)
    requires
        s.len() == keys.len(),
        forall|j: int| 0 <= j < s.len() ==> #[trigger] s[j] == (keys[j], d),
    ensures
        initial_metadata(s).dom() == keys.to_set(),
        forall|k: K| #[trigger] initial_metadata(s).contains_key(k) ==> initial_metadata(s)[k] == d,
    decreases s.len(),
{
    if s.len() > 0 {
        let n = (s.len() - 1) as int;
        lemma_initial_metadata_constant(s.drop_last(), keys.drop_last(), d);
        assert(keys.to_set() =~= keys.drop_last().to_set().insert(keys[n])) by {
            assert(keys =~= keys.drop_last().push(keys[n]));
            keys.drop_last().lemma_push_to_set_commute(keys[n]);
        }
    } else {
        assert(keys.to_set() =~= Set::<K>::empty());
    }
}

/// The members of the group whose representative is `r`.
pub open spec fn class_of<K>(root: Map<K, K>, r: K) -> Set<K> {
    root.dom().filter(|k: K| root[k] == r)
}

/// The representatives: keys that are their own representative.
pub open spec fn roots_of<K>(root: Map<K, K>) -> Set<K> {
    root.dom().filter(|k: K| root[k] == k)
}

/// The metadata a list of initializers leaves behind: the last value given for a key wins.
pub open spec fn initial_metadata<K, M>(s: Seq<(K, M)>) -> Map<K, M>
    decreases s.len(),
{
    if s.len() == 0 {
        Map::empty()
    } else {
        initial_metadata(s.drop_last()).insert(s.last().0, s.last().1)
    }
}

/// The metadata a list of initializers leaves: exactly the keys given get some, and each
/// gets the metadata of the last initializer with that key.
pub proof fn lemma_initial_metadata<K, M>(s: Seq<(K, M)>)
    ensures
        forall|k: K|
            #[trigger] initial_metadata(s).contains_key(k) <==> exists|j: int|
                0 <= j < s.len() && s[j].0 == k,
        forall|j: int|
            0 <= j < s.len() && (forall|l: int| j < l < s.len() ==> s[l].0 != s[j].0)
                ==> initial_metadata(s)[#[trigger] s[j].0] == s[j].1,
    decreases s.len(),
{
    if s.len() > 0 {
        let p = s.drop_last();
        let n = s.len() - 1;
        lemma_initial_metadata(p);
        assert forall|k: K|
            #[trigger] initial_metadata(s).contains_key(k) <==> exists|j: int|
                0 <= j < s.len() && s[j].0 == k by {
            assert(s.last() == s[n]);
            if initial_metadata(s).contains_key(k) && k != s[n].0 {
                assert(initial_metadata(p).contains_key(k));
                let j = choose|j: int| 0 <= j < p.len() && p[j].0 == k;
                assert(s[j] == p[j]);
            }
            if exists|j: int| 0 <= j < s.len() && s[j].0 == k {
                let j = choose|j: int| 0 <= j < s.len() && s[j].0 == k;
                if j < n {
                    assert(p[j] == s[j]);
                    assert(initial_metadata(p).contains_key(k));
                }
            }
        }
        assert forall|j: int|
            0 <= j < s.len() && (forall|l: int| j < l < s.len() ==> s[l].0 != s[j].0)
                implies initial_metadata(s)[#[trigger] s[j].0] == s[j].1 by {
            if j < n {
                assert(s[n].0 != s[j].0);
                assert(p[j] == s[j]);
                assert forall|l: int| j < l < p.len() implies p[l].0 != p[j].0 by {
                    assert(p[l] == s[l]);
                }
            }
        }
    } else {
        assert(initial_metadata(s) =~= Map::<K, M>::empty());
    }
}

/// What a union of `k1` and `k2` does to the representatives, as `union` states it: the
/// keys stay, and the group of `k2` takes the representative of `k1`.
pub open spec fn union_step<K, M>(
    before: UnionFindView<K, M>,
    after: UnionFindView<K, M>,
    k1: K,
    k2: K,
) -> bool {
    &&& before.keys.contains(k1)
    &&& before.keys.contains(k2)
    &&& after.keys == before.keys
    &&& forall|k: K| #[trigger]
        before.keys.contains(k) ==> after.root[k] == (if before.root[k] == before.root[k2] {
            before.root[k1]
        } else {
            before.root[k]
        })
}

/// `x` and `y` are joined by the unions of `pairs`, taken in order: with no unions, when
/// they are the same key; after one more union of `a` and `b`, when they were joined
/// before, or each was joined with `a` or with `b`.
pub open spec fn joined<K>(pairs: Seq<(K, K)>, x: K, y: K) -> bool
    decreases pairs.len(),
{
    if pairs.len() == 0 {
        x == y
    } else {
        let a = pairs.last().0;
        let b = pairs.last().1;
        let p = pairs.drop_last();
        joined(p, x, y) || ((joined(p, x, a) || joined(p, x, b)) && (joined(p, y, a) || joined(
            p,
            y,
            b,
        )))
    }
}

/// `x` and `y` have the same representative.
pub open spec fn same_group<K, M>(v: UnionFindView<K, M>, x: K, y: K) -> bool {
    v.root[x] == v.root[y]
}

/// One union, in a state whose groups match the unions `p` so far, leaves groups that
/// match the unions `p` and then `a` with `b`.
proof fn lemma_union_step_joins<K, M>(
    v0: UnionFindView<K, M>,
    v1: UnionFindView<K, M>,
    a: K,
    b: K,
    p: Seq<(K, K)>,
)
    requires
        union_step(v0, v1, a, b),
        forall|x: K, y: K|
            v0.keys.contains(x) && v0.keys.contains(y) ==> (#[trigger] same_group(v0, x, y)
                <==> joined(p, x, y)),
    ensures
        forall|x: K, y: K|
            v0.keys.contains(x) && v0.keys.contains(y) ==> (#[trigger] same_group(v1, x, y)
                <==> joined(p.push((a, b)), x, y)),
{
    let q = p.push((a, b));
    assert(q.drop_last() =~= p);
    assert forall|x: K, y: K|
        v0.keys.contains(x) && v0.keys.contains(y) implies (#[trigger] same_group(v1, x, y)
        <==> joined(q, x, y)) by {
        assert(same_group(v0, x, y) <==> joined(p, x, y));
        assert(same_group(v0, x, a) <==> joined(p, x, a));
        assert(same_group(v0, x, b) <==> joined(p, x, b));
        assert(same_group(v0, y, a) <==> joined(p, y, a));
        assert(same_group(v0, y, b) <==> joined(p, y, b));
        assert(v1.root[x] == (if v0.root[x] == v0.root[b] {
            v0.root[a]
        } else {
            v0.root[x]
        }));
        assert(v1.root[y] == (if v0.root[y] == v0.root[b] {
            v0.root[a]
        } else {
            v0.root[y]
        }));
    }
}

/// After the first `j` unions of a run from all-separate keys, two keys share a
/// representative exactly when the unions so far join them.
proof fn lemma_unions_prefix<K, M>(views: Seq<UnionFindView<K, M>>, pairs: Seq<(K, K)>, j: int)
    requires
        views.len() == pairs.len() + 1,
        forall|k: K| #[trigger] views[0].keys.contains(k) ==> views[0].root[k] == k,
        forall|i: int|
            0 <= i < pairs.len() ==> union_step(
                #[trigger] views[i],
                views[i + 1],
                pairs[i].0,
                pairs[i].1,
            ),
        0 <= j <= pairs.len(),
    ensures
        views[j].keys == views[0].keys,
        forall|x: K, y: K|
            views[0].keys.contains(x) && views[0].keys.contains(y) ==> (#[trigger] same_group(
                views[j],
                x,
                y,
            ) <==> joined(pairs.take(j), x, y)),
    decreases j,
{
    if j == 0 {
        assert(pairs.take(0) =~= Seq::<(K, K)>::empty());
        assert forall|x: K, y: K|
            views[0].keys.contains(x) && views[0].keys.contains(y) implies (#[trigger] same_group(
            views[0],
            x,
            y,
        ) <==> joined(pairs.take(0), x, y)) by {
            assert(views[0].root[x] == x);
            assert(views[0].root[y] == y);
        }
    } else {
        let i = j - 1;
        lemma_unions_prefix(views, pairs, i);
        assert(union_step(views[i], views[i + 1], pairs[i].0, pairs[i].1));
        assert(pairs.take(j) =~= pairs.take(i).push((pairs[i].0, pairs[i].1)));
        lemma_union_step_joins(views[i], views[j], pairs[i].0, pairs[i].1, pairs.take(i));
    }
}

/// Unions from all-separate keys put two keys in one group exactly when the unions join
/// them: by a chain of pairs, each sharing a key with the next.
pub proof fn lemma_unions_join<K, M>(views: Seq<UnionFindView<K, M>>, pairs: Seq<(K, K)>)
    requires
        views.len() == pairs.len() + 1,
        forall|k: K| #[trigger] views[0].keys.contains(k) ==> views[0].root[k] == k,
        forall|i: int|
            0 <= i < pairs.len() ==> union_step(
                #[trigger] views[i],
                views[i + 1],
                pairs[i].0,
                pairs[i].1,
            ),
    ensures
        views.last().keys == views[0].keys,
        forall|x: K, y: K|
            views[0].keys.contains(x) && views[0].keys.contains(y) ==> (#[trigger] same_group(
                views.last(),
                x,
                y,
            ) <==> joined(pairs, x, y)),
{
    lemma_unions_prefix(views, pairs, pairs.len() as int);
    assert(pairs.take(pairs.len() as int) =~= pairs);
}

/// The abstract state of a `UnionFind`.
#[verifier::ext_equal]
#[verifier::reject_recursive_types(K)]
pub struct UnionFindView<K, M> {
    /// The keys held.
    pub keys: Set<K>,
    /// The representative of each key.
    pub root: Map<K, K>,
    /// The size stored with each key; for a representative, the size of its group.
    pub size: Map<K, nat>,
    /// The metadata stored with each key; for a representative, that of its group.
    pub meta: Map<K, M>,
    /// The number of groups.
    pub groups: nat,
}

/// A union-find structure: a partition of a set of keys into groups, each with a
/// representative, a size and a metadata value.
#[verifier::reject_recursive_types(K)]
pub struct UnionFind<K, M = EmptyMetadata> {
    elements: HashMap<K, UfEntry<K, M>>,
    num_groups: usize,
    rank: Ghost<Map<K, nat>>,
    rank_bound: Ghost<nat>,
}

impl<K: UnionFindKey, M: Copy> View for UnionFind<K, M> {
    type V = UnionFindView<K, M>;

    closed spec fn view(&self) -> UnionFindView<K, M> {
        let m = self.elements@;
        UnionFindView {
            keys: m.dom(),
            root: Map::new(|k: K| m.contains_key(k), |k: K| root_in(m, self.rank_bound@, k)),
            size: m.map_values(|e: UfEntry<K, M>| e.subtree_size as nat),
            meta: m.map_values(|e: UfEntry<K, M>| e.metadata),
            groups: self.num_groups as nat,
        }
    }
}

impl<K: UnionFindKey, M: Copy> UnionFind<K, M> {
    /// The structure's internal invariant: parent links lead every key to a representative,
    /// the group count counts representatives and a representative's size is its group's size.
    pub closed spec fn wf(&self) -> bool {
        &&& ranked(self.elements@, self.rank@, self.rank_bound@)
        &&& self.elements@.dom().finite()
        &&& self.elements@.dom().len() <= usize::MAX
        &&& self.num_groups as nat == roots_of(self@.root).len()
        &&& forall|r: K|
            #[trigger] self@.root.contains_key(r) && self@.root[r] == r ==> self@.size[r]
                == class_of(self@.root, r).len()
    }

    /// The entry stored for `key`.
    fn entry(&self, key: &K) -> (e: &UfEntry<K, M>)
        requires
            self.elements@.contains_key(*key),
        ensures
            *e == self.elements@[*key],
    {
        proof {
            K::lemma_obeys_key_model();
        }
        self.elements.get(key).unwrap()
    }

    /// The parent link of `key`.
    fn parent_key(&self, key: &K) -> (p: K)
        requires
            self.elements@.contains_key(*key),
        ensures
            p == self.elements@[*key].parent_key,
    {
        self.entry(key).parent_key
    }

    /// Points `key` at `new_parent`, leaving its size and metadata alone.
    fn set_parent_key(&mut self, key: K, new_parent: K)
        requires
            old(self).elements@.contains_key(key),
        ensures
            final(self).elements@ == old(self).elements@.insert(
                key,
                UfEntry { parent_key: new_parent, ..old(self).elements@[key] },
            ),
            final(self).num_groups == old(self).num_groups,
            final(self).rank == old(self).rank,
            final(self).rank_bound == old(self).rank_bound,
    {
        proof {
            K::lemma_obeys_key_model();
        }
        let e = *self.entry(&key);
        self.elements.insert(
            key,
            UfEntry { metadata: e.metadata, parent_key: new_parent, subtree_size: e.subtree_size },
        );
    }

    /// Follows parent links from `key` to its representative.
    fn get_root(&self, key: K) -> (r: K)
        requires
            self.wf(),
            self@.keys.contains(key),
        ensures
            r == self@.root[key],
    {
        let ghost m = self.elements@;
        let ghost b = self.rank_bound@;
        let ghost rank = self.rank@;
        let mut parent = self.parent_key(&key);
        proof {
            lemma_root_step(m, rank, b, key);
        }
        let mut gp = self.parent_key(&parent);
        while !parent.same_key(&gp)
            invariant
                self.wf(),
                m == self.elements@,
                b == self.rank_bound@,
                rank == self.rank@,
                m.contains_key(key),
                m.contains_key(parent),
                gp == m[parent].parent_key,
                root_in(m, b, parent) == root_in(m, b, key),
            decreases b - rank[parent],
        {
            proof {
                lemma_root_step(m, rank, b, parent);
            }
            let ggp = self.parent_key(&gp);
            parent = gp;
            gp = ggp;
        }
        parent
    }

    /// Follows parent links from `key` to its representative, pointing each key passed on
    /// the way at its grandparent.
    fn get_root_mut(&mut self, key: K) -> (r: K)
        requires
            old(self).wf(),
            old(self)@.keys.contains(key),
        ensures
            final(self).wf(),
            final(self)@ == old(self)@,
            r == old(self)@.root[key],
            final(self).elements@ == split_path(
                old(self).elements@,
                old(self).elements@[key].parent_key,
            ),
    {
        let ghost m0 = self.elements@;
        let ghost b = self.rank_bound@;
        let ghost rank = self.rank@;
        let mut parent = self.parent_key(&key);
        let ghost p0 = parent;
        let ghost mut steps: nat = 0;
        proof {
            lemma_root_step(m0, rank, b, key);
            assert(self.elements@ =~= split_prefix(m0, p0, steps));
        }
        let mut gp = self.parent_key(&parent);
        while !parent.same_key(&gp)
            invariant
                ranked(m0, rank, b),
                parent == walk(m0, p0, steps),
                forall|i: nat| i < steps ==> #[trigger] rank[walk(m0, p0, i)] < rank[parent],
                m0.contains_key(p0),
                self.elements@ == split_prefix(m0, p0, steps),
                ranked(self.elements@, rank, b),
                b == self.rank_bound@,
                rank == self.rank@,
                self.num_groups == old(self).num_groups,
                self.elements@.dom() == m0.dom(),
                forall|k: K| #[trigger]
                    m0.contains_key(k) ==> self.elements@[k].metadata == m0[k].metadata
                        && self.elements@[k].subtree_size == m0[k].subtree_size && root_in(
                        self.elements@,
                        b,
                        k,
                    ) == root_in(m0, b, k),
                m0.contains_key(key),
                m0.contains_key(parent),
                gp == self.elements@[parent].parent_key,
                root_in(self.elements@, b, parent) == root_in(m0, b, key),
            decreases b - rank[parent],
        {
            let ghost m1 = self.elements@;
            proof {
                lemma_root_step(m1, rank, b, parent);
                lemma_split_step(m0, m1, rank, b, p0, steps);
            }
            let ggp = self.parent_key(&gp);
            self.set_parent_key(parent, ggp);
            proof {
                assert(self.elements@.dom() =~= m1.dom());
                lemma_halve(m1, self.elements@, rank, b, parent);
                lemma_root_step(m1, rank, b, gp);
                steps = steps + 1;
            }
            parent = gp;
            gp = ggp;
        }
        proof {
            assert(self@.root =~= old(self)@.root);
            assert(self@.size =~= old(self)@.size);
            assert(self@.meta =~= old(self)@.meta);
            assert(self@ =~= old(self)@);
            if walked_before(m0, p0, steps, parent) {
                let i = choose|i: nat| i < steps && #[trigger] walk(m0, p0, i) == parent;
                assert(rank[walk(m0, p0, i)] < rank[parent]);
            }
            assert(self.elements@[parent] == m0[parent]);
            lemma_split_done(m0, rank, b, p0, steps);
        }
        parent
    }

    /// Facts about the representatives of two distinct groups, used when linking them.
    proof fn lemma_roots_of_keys(&self, k1: K, k2: K)
        requires
            self.wf(),
            self@.keys.contains(k1),
            self@.keys.contains(k2),
            self@.root[k1] != self@.root[k2],
        ensures
            ({
                let p1 = self@.root[k1];
                let p2 = self@.root[k2];
                &&& self.elements@.contains_key(p1)
                &&& self.elements@.contains_key(p2)
                &&& self.elements@[p1].parent_key == p1
                &&& self.elements@[p2].parent_key == p2
                &&& self@.root[p1] == p1
                &&& self@.root[p2] == p2
                &&& self.elements@[p1].subtree_size + self.elements@[p2].subtree_size <= usize::MAX
                &&& self.num_groups >= 1
            }),
    {
        let m = self.elements@;
        let v = self@;
        let p1 = v.root[k1];
        let p2 = v.root[k2];
        lemma_root_step(m, self.rank@, self.rank_bound@, k1);
        lemma_root_step(m, self.rank@, self.rank_bound@, k2);
        lemma_walk_settles(m, self.rank@, self.rank_bound@, p1, self.rank_bound@);
        lemma_walk_settles(m, self.rank@, self.rank_bound@, p2, self.rank_bound@);
        assert(v.root.dom() =~= m.dom());
        let c1 = class_of(v.root, p1);
        let c2 = class_of(v.root, p2);
        assert(c1.disjoint(c2));
        vstd::set_lib::lemma_set_disjoint_lens(c1, c2);
        vstd::set_lib::lemma_len_subset(c1 + c2, m.dom());
        assert(roots_of(v.root).contains(p2));
        vstd::set_lib::lemma_len_subset(roots_of(v.root), m.dom());
    }

    /// Linking two representatives keeps the invariant and merges exactly their groups.
    proof fn lemma_union_step(before: Self, after: Self, p1: K, p2: K)
        requires
            before.wf(),
            p1 != p2,
            before.elements@.contains_key(p1),
            before.elements@.contains_key(p2),
            before.elements@[p1].parent_key == p1,
            before.elements@[p2].parent_key == p2,
            before@.root[p1] == p1,
            before@.root[p2] == p2,
            before.num_groups >= 1,
            after.num_groups == before.num_groups - 1,
            after.rank@ == link_rank(before.rank@, p1, p2),
            after.rank_bound@ == link_bound(before.rank@, before.rank_bound@, p1, p2),
            after.elements@ == before.elements@.insert(
                p2,
                UfEntry { parent_key: p1, ..before.elements@[p2] },
            ).insert(
                p1,
                UfEntry {
                    metadata: after.elements@[p1].metadata,
                    parent_key: p1,
                    subtree_size: (before.elements@[p1].subtree_size
                        + before.elements@[p2].subtree_size) as usize,
                },
            ),
            before.elements@[p1].subtree_size + before.elements@[p2].subtree_size <= usize::MAX,
        ensures
            after.wf(),
            after@.keys == before@.keys,
            forall|k: K| #[trigger]
                before@.keys.contains(k) ==> after@.root[k] == (if before@.root[k] == p2 {
                    p1
                } else {
                    before@.root[k]
                }),
            after@.groups == before@.groups - 1,
            after@.size == before@.size.insert(p1, before@.size[p1] + before@.size[p2]),
            after@.meta.remove(p1) == before@.meta.remove(p1),
            after@.meta[p1] == after.elements@[p1].metadata,
    {
        let m0 = before.elements@;
        let m1 = after.elements@;
        let v0 = before@;
        let v1 = after@;
        assert(m1.dom() =~= m0.dom());
        lemma_link(m0, m1, before.rank@, before.rank_bound@, p1, p2);
        assert(v0.root.dom() =~= m0.dom());
        assert(v1.root.dom() =~= m1.dom());
        lemma_merge_groups(v0.root, v1.root, p1, p2);
        vstd::set_lib::lemma_len_subset(roots_of(v0.root), m0.dom());
        vstd::set_lib::lemma_set_disjoint_lens(class_of(v0.root, p1), class_of(v0.root, p2));
        assert(v1.size =~= v0.size.insert(p1, v0.size[p1] + v0.size[p2]));
        assert(v1.meta.remove(p1) =~= v0.meta.remove(p1));
        assert forall|r: K|
            #[trigger] v1.root.contains_key(r) && v1.root[r] == r implies v1.size[r] == class_of(
            v1.root,
            r,
        ).len() by {
            if r != p1 {
                assert(class_of(v1.root, r) == class_of(v0.root, r));
            }
        }
    }

    /// A mutable reference to the entry stored for `key`.
    fn entry_mut(&mut self, key: &K) -> (e: &mut UfEntry<K, M>)
        requires
            old(self).elements@.contains_key(*key),
        ensures
            *e == old(self).elements@[*key],
            final(self).elements@ == old(self).elements@.insert(*key, *final(e)),
            final(self).num_groups == old(self).num_groups,
            final(self).rank == old(self).rank,
            final(self).rank_bound == old(self).rank_bound,
    {
        hash_map_get_mut(&mut self.elements, key)
    }

    /// A mutable reference to the metadata stored with `key`; what is written through it
    /// becomes that key's metadata.
    pub fn metadata_mut(&mut self, key: K) -> (m: &mut M)
        requires
            old(self).wf(),
            old(self)@.keys.contains(key),
        ensures
            *m == old(self)@.meta[key],
            final(self).wf(),
            final(self)@ == (UnionFindView { meta: old(self)@.meta.insert(key, *final(m)), ..old(self)@ }),
    {
        proof {
            Self::lemma_metadata_update(*old(self), key);
        }
        let e = self.entry_mut(&key);
        &mut e.metadata
    }

    /// Replacing the metadata stored with one key keeps the invariant and changes nothing else.
    proof fn lemma_metadata_update(before: Self, key: K)
        requires
            before.wf(),
            before.elements@.contains_key(key),
        ensures
            forall|after: Self|
                #![trigger after.wf()]
                #![trigger after.view()]
                after.num_groups == before.num_groups && after.rank == before.rank
                    && after.rank_bound == before.rank_bound && after.elements@
                    == before.elements@.insert(
                    key,
                    (UfEntry { metadata: after.elements@[key].metadata, ..before.elements@[key] }),
                ) ==> after.wf() && after@ == (UnionFindView {
                    meta: before@.meta.insert(key, after.elements@[key].metadata),
                    ..before@
                }),
    {
        let m0 = before.elements@;
        assert forall|after: Self|
            #![trigger after.wf()]
            #![trigger after.view()]
            after.num_groups == before.num_groups && after.rank == before.rank
                && after.rank_bound == before.rank_bound && after.elements@
                == before.elements@.insert(
                key,
                (UfEntry { metadata: after.elements@[key].metadata, ..before.elements@[key] }),
            ) implies after.wf() && after@ == (UnionFindView {
                meta: before@.meta.insert(key, after.elements@[key].metadata),
                ..before@
            }) by {
            let m1 = after.elements@;
            let v = m1[key].metadata;
            assert(m1.dom() =~= m0.dom());
            assert forall|k: K| #[trigger] m1.contains_key(k) implies walk(
                m1,
                k,
                before.rank_bound@,
            ) == walk(m0, k, before.rank_bound@) by {
                lemma_walk_same_links(m0, m1, k, before.rank_bound@);
            }
            assert(after@.root =~= before@.root);
            assert(after@.size =~= before@.size);
            assert(after@.meta =~= before@.meta.insert(key, v));
            assert(after@ =~= (UnionFindView { meta: before@.meta.insert(key, v), ..before@ }));
        }
    }

    /// All keys held, each once, in the map's iteration order.
    pub fn keys(&self) -> (ks: Vec<K>)
        ensures
            ks@.to_set() == self@.keys,
            ks@.no_duplicates(),
            ks@.len() == self@.keys.len(),
    {
        proof {
            K::lemma_obeys_key_model();
        }
        let mut ks: Vec<K> = Vec::new();
        for k in it: self.elements.keys()
            invariant
                ks@ == it.seq().take(it.index()).unref(),
                it.seq().unref().to_set() == self.elements@.dom(),
                it.seq().no_duplicates(),
                it.seq().len() == self.elements@.dom().len(),
                it.index() == it.seq().len() ==> ks@ == it.seq().unref(),
            ensures
                ks@.to_set() == self.elements@.dom(),
                ks@.no_duplicates(),
                ks@.len() == self.elements@.dom().len(),
        {
            proof {
                assert(it.seq().take(it.index() + 1).unref() =~= it.seq().take(
                    it.index(),
                ).unref().push(*it.seq()[it.index()]));
            }
            ks.push(*k);
            proof {
                assert(it.seq().take(it.index() + 1).unref() == ks@);
                assert(it.index() + 1 == it.seq().len() ==> it.seq().take(it.index() + 1)
                    =~= it.seq());
            }
        }
        ks
    }

    /// Every key's representative is a key held, and is its own representative.
    pub proof fn lemma_root_is_representative(&self, k: K)
        requires
            self.wf(),
            self@.keys.contains(k),
        ensures
            self@.keys.contains(self@.root[k]),
            self@.root[self@.root[k]] == self@.root[k],
    {
        let m = self.elements@;
        lemma_root_step(m, self.rank@, self.rank_bound@, k);
        let r = root_in(m, self.rank_bound@, k);
        lemma_walk_settles(m, self.rank@, self.rank_bound@, r, self.rank_bound@);
    }

    /// The view's maps are all over the keys held, a finite set.
    pub proof fn lemma_view_domains(&self)
        requires
            self.wf(),
        ensures
            self@.keys.finite(),
            self@.root.dom() == self@.keys,
            self@.size.dom() == self@.keys,
            self@.meta.dom() == self@.keys,
    {
        assert(self@.root.dom() =~= self@.keys);
        assert(self@.size.dom() =~= self@.keys);
        assert(self@.meta.dom() =~= self@.keys);
    }

    /// The representatives of all keys, each once.
    pub fn root_level_keys(&self) -> (roots: HashSet<K>)
        requires
            self.wf(),
        ensures
            roots@ == roots_of(self@.root),
            roots@ == self@.keys.map(|k: K| self@.root[k]),
    {
        proof {
            K::lemma_obeys_key_model();
        }
        let ks = self.keys();
        let mut roots: HashSet<K> = HashSet::new();
        let mut i: usize = 0;
        while i < ks.len()
            invariant
                self.wf(),
                ks@.to_set() == self@.keys,
                i <= ks@.len(),
                forall|r: K|
                    #[trigger] roots@.contains(r) <==> exists|j: int|
                        0 <= j < i && self@.root[ks@[j]] == r,
                vstd::std_specs::hash::obeys_key_model::<K>(),
            decreases ks@.len() - i,
        {
            proof {
                assert(ks@.to_set().contains(ks@[i as int]));
            }
            let r = self.get_root(ks[i]);
            roots.insert(r);
            i = i + 1;
        }
        proof {
            assert forall|r: K| #[trigger] roots@.contains(r) implies roots_of(self@.root).contains(
                r,
            ) by {
                let j = choose|j: int| 0 <= j < ks@.len() && self@.root[ks@[j]] == r;
                assert(ks@.to_set().contains(ks@[j]));
                self.lemma_root_is_representative(ks@[j]);
            }
            assert forall|r: K| #[trigger] roots_of(self@.root).contains(r) implies roots@.contains(
                r,
            ) by {
                assert(ks@.to_set().contains(r));
                let j = choose|j: int| 0 <= j < ks@.len() && ks@[j] == r;
                assert(self@.root[ks@[j]] == r);
            }
            assert(roots@ =~= roots_of(self@.root));
            let img = self@.keys.map(|k: K| self@.root[k]);
            assert forall|r: K| #[trigger] roots@.contains(r) implies img.contains(r) by {
                assert(self@.keys.contains(r) && self@.root[r] == r);
            }
            assert forall|r: K| #[trigger] img.contains(r) implies roots@.contains(r) by {
                let k = choose|k: K| self@.keys.contains(k) && self@.root[k] == r;
                self.lemma_root_is_representative(k);
            }
            assert(roots@ =~= img);
        }
        roots
    }

    /// Builds a structure in which every key given is a group of its own, all with the
    /// same default metadata.
    pub fn from_keys(keys: Vec<K>) -> (uf: Self)
        where M: Default,
        ensures
            uf.wf(),
            uf@.keys == keys@.to_set(),
            forall|k: K| #[trigger] uf@.keys.contains(k) ==> uf@.root[k] == k && uf@.size[k] == 1,
            forall|k1: K, k2: K|
                uf@.keys.contains(k1) && uf@.keys.contains(k2) ==> #[trigger] uf@.meta[k1]
                    == #[trigger] uf@.meta[k2],
            uf@.groups == uf@.keys.len(),
    {
        let d = M::default();
        let mut initializers: Vec<(K, M)> = Vec::new();
        let mut i: usize = 0;
        while i < keys.len()
            invariant
                i <= keys@.len(),
                initializers@.len() == i,
                forall|j: int| 0 <= j < i ==> #[trigger] initializers@[j] == (keys@[j], d),
            decreases keys@.len() - i,
        {
            initializers.push((keys[i], d));
            i = i + 1;
        }
        proof {
            lemma_initial_metadata_constant(initializers@, keys@, d);
        }
        Self::from_initializers(initializers)
    }

    /// The group count is the number of representatives, and a representative's size is the
    /// number of keys in its group.
    pub proof fn lemma_group_counts(&self)
        requires
            self.wf(),
        ensures
            self@.groups == roots_of(self@.root).len(),
            forall|r: K| #[trigger]
                roots_of(self@.root).contains(r) ==> self@.size[r] == class_of(self@.root, r).len(),
    {
    }

    /// A union of `k1` and `k2` puts them in one group, keeps together keys that were
    /// together, and joins two keys that were apart exactly when one was with `k1` and the
    /// other with `k2`.
    pub proof fn lemma_union_joins(before: &Self, after: &Self, k1: K, k2: K, r: K)
        requires
            before.wf(),
            before@.keys.contains(k1),
            before@.keys.contains(k2),
            r == before@.root[k1],
            after@.keys == before@.keys,
            forall|k: K| #[trigger]
                before@.keys.contains(k) ==> after@.root[k] == (if before@.root[k]
                    == before@.root[k2] {
                    r
                } else {
                    before@.root[k]
                }),
        ensures
            after@.root[k1] == after@.root[k2],
            forall|x: K, y: K|
                before@.keys.contains(x) && before@.keys.contains(y) ==> (#[trigger] after@.root[x]
                    == #[trigger] after@.root[y] <==> (before@.root[x] == before@.root[y] || (
                (before@.root[x] == before@.root[k1] || before@.root[x] == before@.root[k2]) && (
                before@.root[y] == before@.root[k1] || before@.root[y] == before@.root[k2])))),
    {
        before.lemma_root_is_representative(k1);
        before.lemma_root_is_representative(k2);
        assert forall|x: K, y: K|
            before@.keys.contains(x) && before@.keys.contains(y) implies (#[trigger] after@.root[x]
            == #[trigger] after@.root[y] <==> (before@.root[x] == before@.root[y] || ((
            before@.root[x] == before@.root[k1] || before@.root[x] == before@.root[k2]) && (
            before@.root[y] == before@.root[k1] || before@.root[y] == before@.root[k2])))) by {
            before.lemma_root_is_representative(x);
            before.lemma_root_is_representative(y);
        }
    }

    /// The number of groups.
    pub fn num_groups(&self) -> (n: usize)
        ensures
            n == self@.groups,
    {
        self.num_groups
    }

    /// Returns the representative of `key`'s group, pointing each key passed on the way at its
    /// grandparent.
    pub fn find(&mut self, key: K) -> (r: K)
        requires
            old(self).wf(),
            old(self)@.keys.contains(key),
        ensures
            final(self).wf(),
            final(self)@ == old(self)@,
            r == old(self)@.root[key],
    {
        self.get_root_mut(key)
    }

    /// Returns the representative of `key`'s group.
    pub fn find_immut(&self, key: K) -> (r: K)
        requires
            self.wf(),
            self@.keys.contains(key),
        ensures
            r == self@.root[key],
    {
        self.get_root(key)
    }

    /// The size stored with `key`: for a representative, the number of keys in its group.
    pub fn subtree_size(&mut self, key: &K) -> (n: usize)
        requires
            old(self)@.keys.contains(*key),
        ensures
            *final(self) == *old(self),
            n == old(self)@.size[*key],
    {
        self.entry(key).subtree_size
    }

    /// The metadata stored with `key`: for a representative, that of its group.
    pub fn metadata(&self, key: K) -> (m: &M)
        requires
            self@.keys.contains(key),
        ensures
            *m == self@.meta[key],
    {
        &self.entry(&key).metadata
    }

    /// Unions the groups of `k1` and `k2`, returning the representative of the merged group,
    /// which is that of `k1`. The merged group's size is the sum of the two sizes and its
    /// metadata is the first group's metadata plus the second's.
    pub fn union(&mut self, k1: K, k2: K) -> (r: K)
        where M: Add<Output = M>,
        requires
            old(self).wf(),
            old(self)@.keys.contains(k1),
            old(self)@.keys.contains(k2),
            old(self)@.root[k1] != old(self)@.root[k2] ==> old(self)@.meta[old(
                self,
            )@.root[k1]].add_req(old(self)@.meta[old(self)@.root[k2]]),
        ensures
            final(self).wf(),
            r == old(self)@.root[k1],
            final(self)@.keys == old(self)@.keys,
            forall|k: K| #[trigger]
                old(self)@.keys.contains(k) ==> final(self)@.root[k] == (if old(self)@.root[k]
                    == old(self)@.root[k2] {
                    r
                } else {
                    old(self)@.root[k]
                }),
            old(self)@.root[k1] == old(self)@.root[k2] ==> final(self)@ == old(self)@,
            old(self)@.root[k1] != old(self)@.root[k2] ==> {
                let r2 = old(self)@.root[k2];
                &&& final(self)@.groups == old(self)@.groups - 1
                &&& final(self)@.size == old(self)@.size.insert(
                    r,
                    old(self)@.size[r] + old(self)@.size[r2],
                )
                &&& final(self)@.meta.remove(r) == old(self)@.meta.remove(r)
                &&& M::obeys_add_spec() ==> final(self)@.meta[r] == old(self)@.meta[r].add_spec(
                    old(self)@.meta[r2],
                )
            },
    {
        let p1 = self.get_root_mut(k1);
        let p2 = self.get_root_mut(k2);
        if !p1.same_key(&p2) {
            let ghost before = *self;
            proof {
                K::lemma_obeys_key_model();
                self.lemma_roots_of_keys(k1, k2);
            }
            let e2 = *self.entry(&p2);
            let e1 = *self.entry(&p1);
            let new_metadata = e1.metadata + e2.metadata;
            self.elements.insert(
                p2,
                UfEntry { metadata: e2.metadata, parent_key: p1, subtree_size: e2.subtree_size },
            );
            self.elements.insert(
                p1,
                UfEntry {
                    metadata: new_metadata,
                    parent_key: p1,
                    subtree_size: e1.subtree_size + e2.subtree_size,
                },
            );
            self.num_groups = self.num_groups - 1;
            proof {
                self.rank = Ghost(link_rank(before.rank@, p1, p2));
                self.rank_bound = Ghost(link_bound(before.rank@, before.rank_bound@, p1, p2));
                Self::lemma_union_step(before, *self, p1, p2);
            }
        }
        p1
    }

    /// Builds a structure in which every key given is a group of its own, with the metadata
    /// given for it (for a repeated key, the last one).
    pub fn from_initializers(initializers: Vec<(K, M)>) -> (uf: Self)
        ensures
            uf.wf(),
            uf@.keys == initial_metadata(initializers@).dom(),
            uf@.meta == initial_metadata(initializers@),
            forall|k: K| #[trigger] uf@.keys.contains(k) ==> uf@.root[k] == k && uf@.size[k] == 1,
            uf@.groups == uf@.keys.len(),
    {
        proof {
            K::lemma_obeys_key_model();
        }
        let mut elements: HashMap<K, UfEntry<K, M>> = HashMap::new();
        let n = initializers.len();
        let mut i: usize = 0;
        while i < n
            invariant
                n == initializers.len(),
                i <= n,
                elements@.dom() == initial_metadata(initializers@.take(i as int)).dom(),
                forall|k: K| #[trigger]
                    elements@.contains_key(k) ==> elements@[k] == (UfEntry {
                        metadata: initial_metadata(initializers@.take(i as int))[k],
                        parent_key: k,
                        subtree_size: 1usize,
                    }),
                vstd::std_specs::hash::obeys_key_model::<K>(),
            decreases n - i,
        {
            let (key, metadata) = initializers[i];
            elements.insert(key, UfEntry { metadata, parent_key: key, subtree_size: 1 });
            proof {
                assert(initializers@.take(i + 1).drop_last() =~= initializers@.take(i as int));
            }
            i = i + 1;
        }
        proof {
            assert(initializers@.take(n as int) =~= initializers@);
        }
        let num_groups = elements.len();
        let uf = UnionFind {
            elements,
            num_groups,
            rank: Ghost(Map::new(|k: K| true, |k: K| 0nat)),
            rank_bound: Ghost(1nat),
        };
        proof {
            let m = uf.elements@;
            assert forall|k: K| #[trigger] m.contains_key(k) implies root_in(m, 1, k) == k by {
                assert(m[k].parent_key == k);
            }
            assert(roots_of(uf@.root) =~= m.dom());
            assert forall|r: K|
                #[trigger] uf@.root.contains_key(r) && uf@.root[r] == r implies uf@.size[r]
                == class_of(uf@.root, r).len() by {
                assert(class_of(uf@.root, r) =~= set![r]);
            }
        }
        uf
    }
}

} // verus!
