//! Parent pointers as a map, and what following them means.
//!
//! A key without an entry in the map is a root. Everything here is stated for
//! an arbitrary key type: only equality of keys matters.

use vstd::prelude::*;

verus! {

/// Where one gets by following parent pointers from `k` for `steps` steps,
/// stopping early at a root.
pub open spec fn walk<K>(parent: Map<K, K>, k: K, steps: nat) -> K
    decreases steps,
{
    if steps == 0 || !parent.contains_key(k) {
        k
    } else {
        walk(parent, parent[k], (steps - 1) as nat)
    }
}

/// The number of parent pointers between `k` and the root above it, counted
/// up to `fuel`.
pub open spec fn hops<K>(parent: Map<K, K>, k: K, fuel: nat) -> nat
    decreases fuel,
{
    if fuel == 0 || !parent.contains_key(k) {
        0
    } else {
        1 + hops(parent, parent[k], (fuel - 1) as nat)
    }
}

/// The ancestors of `k`, the farthest first and the parent of `k` last,
/// followed up to `fuel` steps.
pub open spec fn lineage<K>(parent: Map<K, K>, k: K, fuel: nat) -> Seq<K>
    decreases fuel,
{
    if fuel == 0 || !parent.contains_key(k) {
        Seq::empty()
    } else {
        lineage(parent, parent[k], (fuel - 1) as nat).push(parent[k])
    }
}

/// Whether `to` is `from` itself or is met within `fuel` steps upwards of
/// `from`.
pub open spec fn on_path<K>(parent: Map<K, K>, from: K, to: K, fuel: nat) -> bool
    decreases fuel,
{
    from == to || (fuel > 0 && parent.contains_key(from) && on_path(
        parent,
        parent[from],
        to,
        (fuel - 1) as nat,
    ))
}

/// The root above `k`.
///
/// As many steps as the map has entries are enough to get there when the map
/// is acyclic.
pub open spec fn root<K>(parent: Map<K, K>, k: K) -> K {
    walk(parent, k, parent.len())
}

/// The number of parent pointers between `k` and its root.
pub open spec fn rank<K>(parent: Map<K, K>, k: K) -> nat {
    hops(parent, k, parent.len())
}

/// The ancestors of `k`, from its root down to its parent.
pub open spec fn ancestors<K>(parent: Map<K, K>, k: K) -> Seq<K> {
    lineage(parent, k, parent.len())
}

/// Whether `to` is `from` itself or an ancestor of `from`.
pub open spec fn reaches<K>(parent: Map<K, K>, from: K, to: K) -> bool {
    on_path(parent, from, to, parent.len())
}

/// Following parent pointers from `k` ends at a root within `fuel` steps.
pub open spec fn settles<K>(parent: Map<K, K>, k: K, fuel: nat) -> bool {
    !parent.contains_key(walk(parent, k, fuel))
}

/// No key is met again on the way up from it.
pub open spec fn acyclic<K>(parent: Map<K, K>) -> bool {
    forall|k: K, i: nat| parent.contains_key(k) && i >= 1 ==> #[trigger] walk(parent, k, i) != k
}

/// Both maps say the same of every key but `c`.
pub open spec fn agree_except<K>(a: Map<K, K>, b: Map<K, K>, c: K) -> bool {
    forall|x: K|
        x != c ==> (a.contains_key(x) == b.contains_key(x)) && (a.contains_key(x) ==> a[x]
            == b[x])
}

/// One more step at the far end of a walk.
pub proof fn lemma_walk_last<K>(parent: Map<K, K>, k: K, n: nat)
    ensures
        walk(parent, k, n + 1) == if parent.contains_key(walk(parent, k, n)) {
            parent[walk(parent, k, n)]
        } else {
            walk(parent, k, n)
        },
    decreases n,
{
    if parent.contains_key(k) {
        assert(walk(parent, k, n + 1) == walk(parent, parent[k], n));
        if n > 0 {
            lemma_walk_last(parent, parent[k], (n - 1) as nat);
            assert(walk(parent, k, n) == walk(parent, parent[k], (n - 1) as nat));
        }
    }
}

/// Two walks in a row are one walk.
pub proof fn lemma_walk_compose<K>(parent: Map<K, K>, k: K, a: nat, b: nat)
    ensures
        walk(parent, walk(parent, k, a), b) == walk(parent, k, a + b),
    decreases a,
{
    if a > 0 && parent.contains_key(k) {
        lemma_walk_compose(parent, parent[k], (a - 1) as nat, b);
    } else if a > 0 {
        lemma_walk_root(parent, k, b);
        lemma_walk_root(parent, k, a + b);
    }
}

/// A walk from a root stays there.
pub proof fn lemma_walk_root<K>(parent: Map<K, K>, k: K, n: nat)
    requires
        !parent.contains_key(k),
    ensures
        walk(parent, k, n) == k,
{
}

/// Once a walk has ended at a root, more steps change nothing.
pub proof fn lemma_walk_stable<K>(parent: Map<K, K>, k: K, a: nat, b: nat)
    requires
        settles(parent, k, a),
        a <= b,
    ensures
        walk(parent, k, b) == walk(parent, k, a),
{
    lemma_walk_compose(parent, k, a, (b - a) as nat);
    lemma_walk_root(parent, walk(parent, k, a), (b - a) as nat);
}

/// Before a walk has ended at a root, every key on it has a parent.
pub proof fn lemma_unsettled_before<K>(parent: Map<K, K>, k: K, a: nat, b: nat)
    requires
        !settles(parent, k, b),
        a <= b,
    ensures
        !settles(parent, k, a),
{
    if settles(parent, k, a) {
        lemma_walk_stable(parent, k, a, b);
    }
}

/// What the hop count says of the walk.
pub proof fn lemma_hops<K>(parent: Map<K, K>, k: K, fuel: nat)
    ensures
        hops(parent, k, fuel) <= fuel,
        forall|t: nat|
            t < hops(parent, k, fuel) ==> parent.contains_key(#[trigger] walk(parent, k, t)),
        settles(parent, k, fuel) ==> walk(parent, k, hops(parent, k, fuel)) == walk(
            parent,
            k,
            fuel,
        ),
        lineage(parent, k, fuel).len() == hops(parent, k, fuel),
    decreases fuel,
{
    if fuel > 0 && parent.contains_key(k) {
        let up = parent[k];
        let rest = (fuel - 1) as nat;
        lemma_hops(parent, up, rest);
        assert forall|t: nat| t < hops(parent, k, fuel) implies parent.contains_key(
            #[trigger] walk(parent, k, t),
        ) by {
            if t > 0 {
                assert(walk(parent, k, t) == walk(parent, up, (t - 1) as nat));
                assert(((t - 1) as nat) < hops(parent, up, rest));
            }
        }
    }
}

/// The lineage lists the walk backwards: its last entry is one step up.
pub proof fn lemma_lineage_index<K>(parent: Map<K, K>, k: K, fuel: nat, j: int)
    requires
        0 <= j < hops(parent, k, fuel),
    ensures
        lineage(parent, k, fuel).len() == hops(parent, k, fuel),
        lineage(parent, k, fuel)[j] == walk(parent, k, (hops(parent, k, fuel) - j) as nat),
    decreases fuel,
{
    lemma_hops(parent, k, fuel);
    let up = parent[k];
    let rest = (fuel - 1) as nat;
    let h = hops(parent, up, rest);
    lemma_hops(parent, up, rest);
    if j < h {
        lemma_lineage_index(parent, up, rest, j);
        assert(walk(parent, k, (h + 1 - j) as nat) == walk(parent, up, (h - j) as nat));
    } else {
        assert(walk(parent, k, 1) == walk(parent, up, 0));
    }
}

/// Two maps that differ at `c` only give the same walk as long as the walk
/// has not met `c`.
pub proof fn lemma_same_walk<K>(a: Map<K, K>, b: Map<K, K>, c: K, k: K, n: nat)
    requires
        agree_except(a, b, c),
        forall|t: nat| t < n ==> #[trigger] walk(a, k, t) != c,
    ensures
        walk(b, k, n) == walk(a, k, n),
    decreases n,
{
    if n > 0 {
        let m = (n - 1) as nat;
        assert forall|t: nat| t < m implies #[trigger] walk(a, k, t) != c by {}
        lemma_same_walk(a, b, c, k, m);
        lemma_walk_last(a, k, m);
        lemma_walk_last(b, k, m);
        assert(walk(a, k, m) != c);
    }
}

/// In an acyclic map over finitely many keys, every walk ends at a root
/// within as many steps as the map has entries.
pub proof fn lemma_settles<K>(parent: Map<K, K>, k: K)
    requires
        acyclic(parent),
        parent.dom().finite(),
    ensures
        settles(parent, k, parent.dom().len()),
{
    let m = parent.dom().len();
    if !settles(parent, k, m) {
        let chain = Seq::new(m + 1, |i: int| walk(parent, k, i as nat));
        assert forall|i: int| 0 <= i < chain.len() implies parent.contains_key(
            #[trigger] chain[i],
        ) by {
            lemma_unsettled_before(parent, k, i as nat, m);
        }
        assert forall|i: int, j: int| 0 <= i < chain.len() && 0 <= j < chain.len() && i
            != j implies chain[i] != chain[j] by {
            let (lo, hi) = if i < j {
                (i, j)
            } else {
                (j, i)
            };
            lemma_walk_compose(parent, k, lo as nat, (hi - lo) as nat);
            assert(walk(parent, chain[lo], (hi - lo) as nat) == chain[hi]);
        }
        chain.unique_seq_to_set();
        assert(chain.to_set().subset_of(parent.dom())) by {
            assert forall|x: K| chain.to_set().contains(x) implies parent.dom().contains(x) by {
                let i = choose|i: int| 0 <= i < chain.len() && chain[i] == x;
                assert(parent.contains_key(chain[i]));
            }
        }
        vstd::set_lib::lemma_len_subset(chain.to_set(), parent.dom());
    }
}

/// Giving `c` the parent `p` keeps the map acyclic when no walk from `p`
/// meets `c`.
pub proof fn lemma_acyclic_insert<K>(parent: Map<K, K>, c: K, p: K)
    requires
        acyclic(parent),
        forall|i: nat| #[trigger] walk(parent, p, i) != c,
    ensures
        acyclic(parent.insert(c, p)),
{
    let next = parent.insert(c, p);
    assert(agree_except(parent, next, c));
    assert forall|k: K, i: nat| next.contains_key(k) && i >= 1 implies #[trigger] walk(
        next,
        k,
        i,
    ) != k by {
        if walk(next, k, i) == k {
            if exists|t: nat| t < i && #[trigger] walk(next, k, t) == c {
                let t = choose|t: nat| t < i && #[trigger] walk(next, k, t) == c;
                // going round once more from `k` meets `c` again
                lemma_walk_compose(next, k, i, t);
                assert(walk(next, k, i + t) == c);
                // and that walk passes `p` right after the first visit of `c`
                lemma_walk_last(next, k, t);
                assert(walk(next, k, t + 1) == p);
                lemma_walk_compose(next, k, t + 1, (i - 1) as nat);
                assert(walk(next, p, (i - 1) as nat) == c);
                // though from `p` both maps give the same walk
                assert forall|s: nat| s < (i - 1) as nat implies #[trigger] walk(parent, p, s)
                    != c by {}
                lemma_same_walk(parent, next, c, p, (i - 1) as nat);
                assert(walk(parent, p, (i - 1) as nat) == c);
            } else {
                assert forall|t: nat| t < i implies #[trigger] walk(next, k, t) != c by {}
                assert(agree_except(next, parent, c));
                lemma_same_walk(next, parent, c, k, i);
                assert(walk(next, k, 0) != c);
                assert(parent.contains_key(k));
                assert(walk(parent, k, i) == k);
            }
        }
    }
}

/// Two keys with different roots are not on each other's way up.
pub proof fn lemma_other_root_never_met<K>(parent: Map<K, K>, p: K, c: K, fuel: nat)
    requires
        settles(parent, p, fuel),
        settles(parent, c, fuel),
        walk(parent, p, fuel) != walk(parent, c, fuel),
    ensures
        forall|i: nat| #[trigger] walk(parent, p, i) != c,
{
    assert forall|i: nat| #[trigger] walk(parent, p, i) != c by {
        if walk(parent, p, i) == c {
            lemma_walk_compose(parent, p, i, fuel);
            lemma_walk_stable(parent, p, fuel, i + fuel);
        }
    }
}

} // verus!
