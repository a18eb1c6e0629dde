//! Sequences ordered by a relation, and what their elements determine.
use vstd::prelude::*;

verus! {

/// `s` is strictly ordered by `before`.
pub open spec fn sorted_by<T>(s: Seq<T>, before: spec_fn(T, T) -> bool) -> bool {
    forall|i: int, j: int| 0 <= i < j < s.len() ==> before(#[trigger] s[i], #[trigger] s[j])
}

/// Inserting `e` where everything before it precedes it and the next entry
/// follows it keeps a sequence sorted under a transitive order.
pub proof fn lemma_insert_sorted<T>(s: Seq<T>, e: T, pos: int, before: spec_fn(T, T) -> bool)
    requires
        0 <= pos <= s.len(),
        sorted_by(s, before),
        forall|i: int| 0 <= i < pos ==> before(#[trigger] s[i], e),
        pos < s.len() ==> before(e, s[pos]),
        forall|a: T, b: T, c: T| #[trigger] before(a, b) && #[trigger] before(b, c) ==> before(a, c),
    ensures
        sorted_by(s.insert(pos, e), before),
{
    let n = s.insert(pos, e);
    assert forall|i: int, j: int| 0 <= i < j < n.len() implies before(#[trigger] n[i], #[trigger] n[j]) by {
        if j == pos {
            assert(n[i] == s[i]);
        } else if i == pos {
            assert(n[j] == s[j - 1]);
            if j - 1 > pos {
                assert(before(s[pos], s[j - 1]));
            }
        } else {
            let oi = if i < pos { i } else { i - 1 };
            let oj = if j < pos { j } else { j - 1 };
            assert(n[i] == s[oi]);
            assert(n[j] == s[oj]);
        }
    }
}


/// A rearrangement of a sequence whose keys are distinct has distinct keys.
pub proof fn lemma_distinct_keys_permutation<T, K>(a: Seq<T>, b: Seq<T>, key: spec_fn(T) -> K)
    requires
        forall|i: int, j: int| 0 <= i < j < a.len() ==> key(#[trigger] a[i]) != key(#[trigger] a[j]),
        a.to_multiset() == b.to_multiset(),
    ensures
        forall|i: int, j: int| 0 <= i < j < b.len() ==> key(#[trigger] b[i]) != key(#[trigger] b[j]),
{
    assert forall|i: int, j: int| 0 <= i < a.len() && 0 <= j < a.len() && i != j implies a[i] != a[j] by {
        if i < j {
            assert(key(a[i]) != key(a[j]));
        } else {
            assert(key(a[j]) != key(a[i]));
        }
    }
    a.lemma_multiset_has_no_duplicates();
    b.lemma_multiset_has_no_duplicates_conv();
    assert forall|i: int, j: int| 0 <= i < j < b.len() implies key(#[trigger] b[i]) != key(#[trigger] b[j]) by {
        assert(b[i] != b[j]);
        assert(b.contains(b[i]));
        assert(b.contains(b[j]));
        vstd::seq_lib::to_multiset_contains(b, b[i]);
        vstd::seq_lib::to_multiset_contains(b, b[j]);
        vstd::seq_lib::to_multiset_contains(a, b[i]);
        vstd::seq_lib::to_multiset_contains(a, b[j]);
        let x = choose|x: int| 0 <= x < a.len() && a[x] == b[i];
        let y = choose|y: int| 0 <= y < a.len() && a[y] == b[j];
        if x < y {
            assert(key(a[x]) != key(a[y]));
        } else {
            assert(key(a[y]) != key(a[x]));
        }
    }
}


/// Two sequences sorted by the same asymmetric order, holding the same
/// elements as often, are equal.
pub proof fn lemma_sorted_unique<T>(a: Seq<T>, b: Seq<T>, before: spec_fn(T, T) -> bool)
    requires
        sorted_by(a, before),
        sorted_by(b, before),
        a.to_multiset() == b.to_multiset(),
        forall|x: T, y: T| #[trigger] before(x, y) ==> !before(y, x),
    ensures
        a == b,
    decreases a.len(),
{
    vstd::seq_lib::to_multiset_len(a);
    vstd::seq_lib::to_multiset_len(b);
    if a.len() == 0 {
        assert(a =~= b);
    } else {
        assert(a.contains(a[0]));
        vstd::seq_lib::to_multiset_contains(a, a[0]);
        vstd::seq_lib::to_multiset_contains(b, a[0]);
        assert(b.contains(b[0]));
        vstd::seq_lib::to_multiset_contains(b, b[0]);
        vstd::seq_lib::to_multiset_contains(a, b[0]);
        if a[0] != b[0] {
            let j = choose|j: int| 0 <= j < b.len() && b[j] == a[0];
            let i = choose|i: int| 0 <= i < a.len() && a[i] == b[0];
            assert(before(b[0], b[j]));
            assert(before(a[0], a[i]));
        }
        vstd::seq_lib::to_multiset_remove(a, 0);
        vstd::seq_lib::to_multiset_remove(b, 0);
        assert(a.remove(0) =~= a.drop_first());
        assert(b.remove(0) =~= b.drop_first());
        assert forall|i: int, j: int| 0 <= i < j < a.drop_first().len() implies before(#[trigger] a.drop_first()[i], #[trigger] a.drop_first()[j]) by {
            assert(a.drop_first()[i] == a[i + 1]);
            assert(a.drop_first()[j] == a[j + 1]);
        }
        assert forall|i: int, j: int| 0 <= i < j < b.drop_first().len() implies before(#[trigger] b.drop_first()[i], #[trigger] b.drop_first()[j]) by {
            assert(b.drop_first()[i] == b[i + 1]);
            assert(b.drop_first()[j] == b[j + 1]);
        }
        lemma_sorted_unique(a.drop_first(), b.drop_first(), before);
        assert(a =~= seq![a[0]] + a.drop_first());
        assert(b =~= seq![b[0]] + b.drop_first());
    }
}


/// Sequences without repeats holding the same elements hold them equally often.
pub proof fn lemma_same_elements_same_multiset<T>(a: Seq<T>, b: Seq<T>)
    requires
        a.no_duplicates(),
        b.no_duplicates(),
        forall|x: T| a.contains(x) <==> b.contains(x),
    ensures
        a.to_multiset() == b.to_multiset(),
{
    a.lemma_multiset_has_no_duplicates();
    b.lemma_multiset_has_no_duplicates();
    assert forall|x: T| a.to_multiset().count(x) == b.to_multiset().count(x) by {
        vstd::seq_lib::to_multiset_contains(a, x);
        vstd::seq_lib::to_multiset_contains(b, x);
    }
    assert(a.to_multiset() =~= b.to_multiset());
}

} // verus!
