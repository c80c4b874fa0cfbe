//! Totally ordered keys and the canonical (ascending) enumeration of a key set.

use vstd::prelude::*;
use vstd::std_specs::iter::IteratorSpec;

verus! {

/// A key with a strict total order on its view.
///
/// Identity of a key is its view: two keys denote the same thing exactly when
/// their views are equal.
pub trait OrderedKey: View + Sized {
    /// The strict order: `a` comes before `b`.
    spec fn key_lt(a: Self::V, b: Self::V) -> bool;

    proof fn lemma_irreflexive(a: Self::V)
        ensures
            !Self::key_lt(a, a),
    ;

    proof fn lemma_transitive(a: Self::V, b: Self::V, c: Self::V)
        requires
            Self::key_lt(a, b),
            Self::key_lt(b, c),
        ensures
            Self::key_lt(a, c),
    ;

    proof fn lemma_connected(a: Self::V, b: Self::V)
        ensures
            Self::key_lt(a, b) || a == b || Self::key_lt(b, a),
    ;

    /// Whether both keys denote the same thing.
    fn same(&self, other: &Self) -> (r: bool)
        ensures
            r == (self@ == other@),
    ;

    /// Whether this key comes strictly before `other`.
    fn before(&self, other: &Self) -> (r: bool)
        ensures
            r == Self::key_lt(self@, other@),
    ;

    /// An independent copy of this key.
    fn duplicate(&self) -> (r: Self)
        ensures
            r == *self,
    ;
}

impl OrderedKey for usize {
    open spec fn key_lt(a: usize, b: usize) -> bool {
        a < b
    }

    proof fn lemma_irreflexive(a: usize) {
    }

    proof fn lemma_transitive(a: usize, b: usize, c: usize) {
    }

    proof fn lemma_connected(a: usize, b: usize) {
    }

    fn same(&self, other: &Self) -> (r: bool) {
        *self == *other
    }

    fn before(&self, other: &Self) -> (r: bool) {
        *self < *other
    }

    fn duplicate(&self) -> (r: Self) {
        *self
    }
}

impl OrderedKey for u64 {
    open spec fn key_lt(a: u64, b: u64) -> bool {
        a < b
    }

    proof fn lemma_irreflexive(a: u64) {
    }

    proof fn lemma_transitive(a: u64, b: u64, c: u64) {
    }

    proof fn lemma_connected(a: u64, b: u64) {
    }

    fn same(&self, other: &Self) -> (r: bool) {
        *self == *other
    }

    fn before(&self, other: &Self) -> (r: bool) {
        *self < *other
    }

    fn duplicate(&self) -> (r: Self) {
        *self
    }
}

/// Whether `s` lists keys in strictly ascending order.
pub open spec fn ascending<K: OrderedKey>(s: Seq<K::V>) -> bool {
    forall|i: int, j: int| 0 <= i < j < s.len() ==> #[trigger] K::key_lt(s[i], s[j])
}

/// The ascending enumeration of a finite key set.
pub open spec fn canonical<K: OrderedKey>(keys: Set<K::V>) -> Seq<K::V> {
    choose|s: Seq<K::V>| ascending::<K>(s) && s.to_set() == keys
}

/// An ascending sequence never repeats a key.
pub proof fn lemma_ascending_distinct<K: OrderedKey>(s: Seq<K::V>)
    requires
        ascending::<K>(s),
    ensures
        s.no_duplicates(),
{
    assert forall|i: int, j: int| 0 <= i < s.len() && 0 <= j < s.len() && i != j implies s[i]
        != s[j] by {
        if i < j {
            assert(K::key_lt(s[i], s[j]));
        } else {
            assert(K::key_lt(s[j], s[i]));
        }
        K::lemma_irreflexive(s[i]);
    }
}

/// Two ascending sequences that hold the same keys are the same sequence.
pub proof fn lemma_ascending_unique<K: OrderedKey>(a: Seq<K::V>, b: Seq<K::V>)
    requires
        ascending::<K>(a),
        ascending::<K>(b),
        forall|x: K::V| a.contains(x) <==> b.contains(x),
    ensures
        a == b,
    decreases a.len(),
{
    if a.len() == 0 {
        if b.len() > 0 {
            assert(b.contains(b[0]));
        }
        assert(a =~= b);
    } else {
        assert(a.contains(a[0]));
        assert(b.contains(a[0]));
        let j = choose|j: int| 0 <= j < b.len() && b[j] == a[0];
        assert(b.contains(b[0]));
        let i = choose|i: int| 0 <= i < a.len() && a[i] == b[0];
        if i > 0 {
            assert(K::key_lt(a[0], a[i]));
            if j > 0 {
                assert(K::key_lt(b[0], b[j]));
                K::lemma_transitive(a[0], b[0], a[0]);
            }
            K::lemma_irreflexive(a[0]);
        }
        assert(a[0] == b[0]);
        let a1 = a.drop_first();
        let b1 = b.drop_first();
        assert forall|m: int, n: int| 0 <= m < n < a1.len() implies #[trigger] K::key_lt(
            a1[m],
            a1[n],
        ) by {
            assert(K::key_lt(a[m + 1], a[n + 1]));
        }
        assert forall|m: int, n: int| 0 <= m < n < b1.len() implies #[trigger] K::key_lt(
            b1[m],
            b1[n],
        ) by {
            assert(K::key_lt(b[m + 1], b[n + 1]));
        }
        assert forall|x: K::V| a1.contains(x) <==> b1.contains(x) by {
            if a1.contains(x) {
                let m = choose|m: int| 0 <= m < a1.len() && a1[m] == x;
                assert(a[m + 1] == x);
                assert(K::key_lt(a[0], a[m + 1]));
                assert(a.contains(x));
                let n = choose|n: int| 0 <= n < b.len() && b[n] == x;
                K::lemma_irreflexive(x);
                assert(n > 0);
                assert(b1[n - 1] == x);
            }
            if b1.contains(x) {
                let m = choose|m: int| 0 <= m < b1.len() && b1[m] == x;
                assert(b[m + 1] == x);
                assert(K::key_lt(b[0], b[m + 1]));
                assert(b.contains(x));
                let n = choose|n: int| 0 <= n < a.len() && a[n] == x;
                K::lemma_irreflexive(x);
                assert(n > 0);
                assert(a1[n - 1] == x);
            }
        }
        lemma_ascending_unique::<K>(a1, b1);
        assert(a =~= seq![a[0]] + a1);
        assert(b =~= seq![b[0]] + b1);
    }
}

/// An ascending sequence is the canonical enumeration of the keys it holds.
pub proof fn lemma_canonical_of<K: OrderedKey>(s: Seq<K::V>)
    requires
        ascending::<K>(s),
    ensures
        canonical::<K>(s.to_set()) == s,
{
    let c = canonical::<K>(s.to_set());
    assert(ascending::<K>(c) && c.to_set() == s.to_set());
    assert forall|x: K::V| c.contains(x) <==> s.contains(x) by {
        assert(c.to_set().contains(x) <==> s.to_set().contains(x));
    }
    lemma_ascending_unique::<K>(c, s);
}

/// The views of a sequence of indices.
pub open spec fn views_of<I: View>(items: Seq<&I>) -> Seq<I::V> {
    items.map_values(|i: &I| i@)
}

/// Filtering one more key of a sequence either appends that key or changes
/// nothing.
pub proof fn lemma_filter_step<A>(s: Seq<A>, pred: spec_fn(A) -> bool, i: int)
    requires
        0 <= i < s.len(),
    ensures
        s.take(i + 1).filter(pred) == if pred(s[i]) {
            s.take(i).filter(pred).push(s[i])
        } else {
            s.take(i).filter(pred)
        },
{
    reveal(Seq::filter);
    assert(s.take(i + 1).drop_last() =~= s.take(i));
}

/// What is kept of an ascending sequence is ascending, and holds the keys of
/// the sequence that pass the test.
pub proof fn lemma_filter_ascending<K: OrderedKey>(s: Seq<K::V>, pred: spec_fn(K::V) -> bool)
    requires
        ascending::<K>(s),
    ensures
        ascending::<K>(s.filter(pred)),
        forall|x: K::V|
            #![trigger s.filter(pred).contains(x)]
            #![trigger s.contains(x)]
            s.filter(pred).contains(x) <==> s.contains(x) && pred(x),
    decreases s.len(),
{
    reveal(Seq::filter);
    let f = s.filter(pred);
    if s.len() > 0 {
        let d = s.drop_last();
        let fd = d.filter(pred);
        assert forall|m: int, n: int| 0 <= m < n < d.len() implies #[trigger] K::key_lt(
            d[m],
            d[n],
        ) by {
            assert(K::key_lt(s[m], s[n]));
        }
        lemma_filter_ascending::<K>(d, pred);
        assert forall|i: int, j: int| 0 <= i < j < f.len() implies #[trigger] K::key_lt(
            f[i],
            f[j],
        ) by {
            if j < fd.len() {
                assert(K::key_lt(fd[i], fd[j]));
            } else {
                assert(fd.contains(fd[i]));
                assert(d.contains(fd[i]));
                let m = choose|m: int| 0 <= m < d.len() && d[m] == fd[i];
                assert(K::key_lt(s[m], s[s.len() - 1]));
            }
        }
        assert forall|x: K::V|
            #![trigger f.contains(x)]
            #![trigger s.contains(x)]
            f.contains(x) <==> s.contains(x) && pred(x) by {
            if f.contains(x) {
                let i = choose|i: int| 0 <= i < f.len() && f[i] == x;
                if i < fd.len() {
                    assert(fd[i] == x);
                    assert(fd.contains(x));
                    assert(d.contains(x));
                    let m = choose|m: int| 0 <= m < d.len() && d[m] == x;
                    assert(s[m] == x);
                } else {
                    assert(s[s.len() - 1] == x);
                }
            }
            if s.contains(x) && pred(x) {
                let m = choose|m: int| 0 <= m < s.len() && s[m] == x;
                if m < d.len() {
                    assert(d[m] == x);
                    assert(d.contains(x));
                    assert(fd.contains(x));
                    let i = choose|i: int| 0 <= i < fd.len() && fd[i] == x;
                    assert(f[i] == x);
                } else {
                    assert(f[f.len() - 1] == x);
                }
            }
        }
    }
}

/// What is kept of an ascending sequence is the canonical enumeration of the
/// keys that pass the test.
pub proof fn lemma_filter_canonical<K: OrderedKey>(
    s: Seq<K::V>,
    pred: spec_fn(K::V) -> bool,
    target: Set<K::V>,
)
    requires
        ascending::<K>(s),
        forall|x: K::V|
            #![trigger target.contains(x)]
            #![trigger s.contains(x)]
            target.contains(x) <==> s.contains(x) && pred(x),
    ensures
        canonical::<K>(target) == s.filter(pred),
{
    lemma_filter_ascending::<K>(s, pred);
    assert(s.filter(pred).to_set() =~= target);
    lemma_canonical_of::<K>(s.filter(pred));
}

/// Lexicographic order of two texts by the code points of their characters.
pub open spec fn text_lt(a: Seq<char>, b: Seq<char>) -> bool
    decreases a.len(),
{
    if b.len() == 0 {
        false
    } else if a.len() == 0 {
        true
    } else if a[0] != b[0] {
        (a[0] as u32) < (b[0] as u32)
    } else {
        text_lt(a.drop_first(), b.drop_first())
    }
}

/// No text comes before itself.
pub proof fn lemma_text_lt_irreflexive(a: Seq<char>)
    ensures
        !text_lt(a, a),
    decreases a.len(),
{
    if a.len() > 0 {
        lemma_text_lt_irreflexive(a.drop_first());
    }
}

/// The order of texts is transitive.
pub proof fn lemma_text_lt_transitive(a: Seq<char>, b: Seq<char>, c: Seq<char>)
    requires
        text_lt(a, b),
        text_lt(b, c),
    ensures
        text_lt(a, c),
    decreases a.len(),
{
    if a.len() > 0 && a[0] == b[0] && b[0] == c[0] {
        lemma_text_lt_transitive(a.drop_first(), b.drop_first(), c.drop_first());
    }
}

/// Of two different texts one comes before the other.
pub proof fn lemma_text_lt_connected(a: Seq<char>, b: Seq<char>)
    ensures
        text_lt(a, b) || a == b || text_lt(b, a),
    decreases a.len(),
{
    if a.len() == 0 || b.len() == 0 {
        if a.len() == 0 && b.len() == 0 {
            assert(a =~= b);
        }
    } else if a[0] == b[0] {
        lemma_text_lt_connected(a.drop_first(), b.drop_first());
        if a.drop_first() == b.drop_first() {
            assert(a =~= seq![a[0]] + a.drop_first());
            assert(b =~= seq![b[0]] + b.drop_first());
        }
    } else {
        vstd::utf8::char_u32_cast(a[0], a[0] as u32);
        vstd::utf8::char_u32_cast(b[0], b[0] as u32);
    }
}

/// Whether `a` comes before `b` in the order of texts.
fn text_before(a: &String, b: &String) -> (r: bool)
    ensures
        r == text_lt(a@, b@),
{
    let mut left = a.as_str().chars();
    let mut right = b.as_str().chars();
    let ghost mut seen: nat = 0;
    loop
        invariant
            seen <= a@.len(),
            left.remaining().len() == a@.len() - seen,
            text_lt(a@, b@) == text_lt(left.remaining(), right.remaining()),
        decreases a@.len() - seen,
    {
        match (left.next(), right.next()) {
            (Some(x), Some(y)) => {
                if x != y {
                    return (x as u32) < (y as u32);
                }
                proof {
                    seen = seen + 1;
                }
            },
            (None, Some(_)) => {
                return true;
            },
            (_, None) => {
                return false;
            },
        }
    }
}

impl OrderedKey for String {
    open spec fn key_lt(a: Seq<char>, b: Seq<char>) -> bool {
        text_lt(a, b)
    }

    proof fn lemma_irreflexive(a: Seq<char>) {
        lemma_text_lt_irreflexive(a);
    }

    proof fn lemma_transitive(a: Seq<char>, b: Seq<char>, c: Seq<char>) {
        lemma_text_lt_transitive(a, b, c);
    }

    proof fn lemma_connected(a: Seq<char>, b: Seq<char>) {
        lemma_text_lt_connected(a, b);
    }

    fn same(&self, other: &Self) -> (r: bool) {
        *self == *other
    }

    fn before(&self, other: &Self) -> (r: bool) {
        text_before(self, other)
    }

    fn duplicate(&self) -> (r: Self) {
        self.clone()
    }
}

} // verus!
