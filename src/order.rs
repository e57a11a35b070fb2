//! The key order that the ordered collections rely on: a key type's `Ord`
//! impl must be a lawful total order whose equality is value equality.
use core::cmp::Ordering;
use vstd::laws_cmp::*;
use vstd::laws_eq::*;
use vstd::prelude::*;
use vstd::std_specs::cmp::{OrdSpec, PartialOrdSpec};

verus! {

/// `T`'s `cmp` is a total order, and two values compare equal exactly when
/// they are the same value.
pub open spec fn is_total_order<T: Ord>() -> bool {
    obeys_cmp::<T>() && obeys_concrete_eq::<T>()
}

/// `a` orders strictly before `b`.
pub open spec fn lt<T: Ord>(a: T, b: T) -> bool {
    a.cmp_spec(&b) == Ordering::Less
}

/// `s` is strictly ascending.
pub open spec fn ascending<T: Ord>(s: Seq<T>) -> bool {
    forall|i: int, j: int| 0 <= i < j < s.len() ==> #[trigger] lt(s[i], s[j])
}

/// The laws of a total order, spelled out over `cmp_spec`.
pub proof fn lemma_total_order<T: Ord>()
    requires
        is_total_order::<T>(),
    ensures
        T::obeys_cmp_spec(),
        forall|a: T, b: T| #[trigger] a.cmp_spec(&b) == Ordering::Equal <==> a == b,
        forall|a: T, b: T| #[trigger] lt(a, b) <==> b.cmp_spec(&a) == Ordering::Greater,
        forall|a: T, b: T| #[trigger] lt(a, b) ==> !lt(b, a),
        forall|a: T, b: T| a != b ==> #[trigger] lt(a, b) || #[trigger] lt(b, a),
        forall|a: T, b: T, c: T| #[trigger] lt(a, b) && #[trigger] lt(b, c) ==> lt(a, c),
        forall|a: T, b: T, c: T| !#[trigger] lt(b, a) && !#[trigger] lt(c, b) ==> !lt(c, a),
{
    reveal(obeys_cmp_partial_ord);
    reveal(obeys_cmp_ord);
    reveal(obeys_partial_cmp_spec_properties);
    reveal(obeys_concrete_eq);
    assert forall|a: T, b: T| #[trigger] a.cmp_spec(&b) == Ordering::Equal <==> a == b by {
        assert(a.partial_cmp_spec(&b) == Some(a.cmp_spec(&b)));
    }
    assert forall|a: T, b: T| #[trigger] lt(a, b) <==> b.cmp_spec(&a) == Ordering::Greater by {
        assert(a.partial_cmp_spec(&b) == Some(a.cmp_spec(&b)));
        assert(b.partial_cmp_spec(&a) == Some(b.cmp_spec(&a)));
    }
    assert forall|a: T, b: T, c: T| #[trigger] lt(a, b) && #[trigger] lt(b, c) implies lt(a, c) by {
        assert(a.partial_cmp_spec(&b) == Some(a.cmp_spec(&b)));
        assert(b.partial_cmp_spec(&c) == Some(b.cmp_spec(&c)));
        assert(a.partial_cmp_spec(&c) == Some(a.cmp_spec(&c)));
    }
    assert forall|a: T, b: T| a != b implies #[trigger] lt(a, b) || #[trigger] lt(b, a) by {
        assert(a.partial_cmp_spec(&b) == Some(a.cmp_spec(&b)));
        assert(b.partial_cmp_spec(&a) == Some(b.cmp_spec(&a)));
    }
    assert forall|a: T, b: T, c: T| !#[trigger] lt(b, a) && !#[trigger] lt(c, b) implies !lt(c, a) by {
        if lt(c, a) && a != b && b != c {
            assert(lt(a, b) || lt(b, a));
            assert(lt(b, c) || lt(c, b));
            assert(lt(c, b));
        }
    }
}

/// Whether `a` orders strictly before `b`.
pub fn less<T: Ord>(a: &T, b: &T) -> (r: bool)
    requires
        is_total_order::<T>(),
    ensures
        r == lt(*a, *b),
{
    proof {
        lemma_total_order::<T>();
    }
    match a.cmp(b) {
        Ordering::Less => true,
        _ => false,
    }
}

/// `s` with `k` placed before the first element that does not order before it.
/// On an ascending sequence that lacks `k` this is the ascending sequence of
/// the elements of `s` and `k`.
pub open spec fn sorted_insert<T: Ord>(s: Seq<T>, k: T) -> Seq<T>
    decreases s.len(),
{
    if s.len() == 0 {
        seq![k]
    } else if lt(s[0], k) {
        seq![s[0]] + sorted_insert(s.drop_first(), k)
    } else {
        seq![k] + s
    }
}

/// Inserting before a block that starts at or after `k` leaves that block in place.
pub proof fn lemma_sorted_insert_before<T: Ord>(a: Seq<T>, b: Seq<T>, k: T)
    requires
        b.len() > 0 ==> !lt(b[0], k),
    ensures
        sorted_insert(a + b, k) == sorted_insert(a, k) + b,
    decreases a.len(),
{
    if a.len() == 0 {
        assert(a + b =~= b);
    } else {
        assert((a + b).drop_first() =~= a.drop_first() + b);
        assert((a + b)[0] == a[0]);
        lemma_sorted_insert_before(a.drop_first(), b, k);
        if lt(a[0], k) {
            assert(sorted_insert(a + b, k) =~= sorted_insert(a, k) + b);
        } else {
            assert(sorted_insert(a + b, k) =~= sorted_insert(a, k) + b);
        }
    }
}

/// Inserting after a block that orders wholly before `k` leaves that block in place.
pub proof fn lemma_sorted_insert_after<T: Ord>(a: Seq<T>, b: Seq<T>, k: T)
    requires
        forall|i: int| 0 <= i < a.len() ==> lt(#[trigger] a[i], k),
    ensures
        sorted_insert(a + b, k) == a + sorted_insert(b, k),
    decreases a.len(),
{
    if a.len() == 0 {
        assert(a + b =~= b);
        assert(a + sorted_insert(b, k) =~= sorted_insert(b, k));
    } else {
        assert((a + b).drop_first() =~= a.drop_first() + b);
        assert((a + b)[0] == a[0]);
        assert(lt(a[0], k));
        assert forall|i: int| 0 <= i < a.drop_first().len() implies lt(#[trigger] a.drop_first()[i], k) by {
            assert(a.drop_first()[i] == a[i + 1]);
        }
        lemma_sorted_insert_after(a.drop_first(), b, k);
        assert(sorted_insert(a + b, k) =~= a + sorted_insert(b, k));
    }
}

/// Inserting a missing key into an ascending sequence keeps it ascending and
/// adds exactly that key.
pub proof fn lemma_sorted_insert_ascending<T: Ord>(s: Seq<T>, k: T)
    requires
        is_total_order::<T>(),
        ascending(s),
        !s.contains(k),
    ensures
        ascending(sorted_insert(s, k)),
        sorted_insert(s, k).len() == s.len() + 1,
        forall|x: T| #[trigger] sorted_insert(s, k).contains(x) <==> s.contains(x) || x == k,
    decreases s.len(),
{
    lemma_total_order::<T>();
    let r = sorted_insert(s, k);
    if s.len() == 0 {
        assert forall|x: T| #[trigger] r.contains(x) <==> s.contains(x) || x == k by {
            if r.contains(x) {
                let i = choose|i: int| 0 <= i < r.len() && r[i] == x;
                assert(i == 0);
            }
            if x == k {
                assert(r[0] == k);
            }
        }
    } else if lt(s[0], k) {
        let t = s.drop_first();
        assert(ascending(t)) by {
            assert forall|i: int, j: int| 0 <= i < j < t.len() implies #[trigger] lt(t[i], t[j]) by {
                assert(lt(s[i + 1], s[j + 1]));
            }
        }
        assert(!t.contains(k)) by {
            if t.contains(k) {
                let i = choose|i: int| 0 <= i < t.len() && t[i] == k;
                assert(s[i + 1] == k);
            }
        }
        lemma_sorted_insert_ascending(t, k);
        let rt = sorted_insert(t, k);
        assert(r =~= seq![s[0]] + rt);
        assert forall|x: T| #[trigger] r.contains(x) <==> s.contains(x) || x == k by {
            if r.contains(x) {
                let i = choose|i: int| 0 <= i < r.len() && r[i] == x;
                if i > 0 {
                    assert(rt[i - 1] == x);
                    assert(rt.contains(x));
                    if t.contains(x) {
                        let j = choose|j: int| 0 <= j < t.len() && t[j] == x;
                        assert(s[j + 1] == x);
                    }
                } else {
                    assert(s[0] == x);
                }
            }
            if s.contains(x) {
                let j = choose|j: int| 0 <= j < s.len() && s[j] == x;
                if j > 0 {
                    assert(t[j - 1] == x);
                    assert(rt.contains(x));
                    let i = choose|i: int| 0 <= i < rt.len() && rt[i] == x;
                    assert(r[i + 1] == x);
                } else {
                    assert(r[0] == x);
                }
            }
            if x == k {
                assert(rt.contains(k));
                let i = choose|i: int| 0 <= i < rt.len() && rt[i] == k;
                assert(r[i + 1] == k);
            }
        }
        assert forall|i: int, j: int| 0 <= i < j < r.len() implies #[trigger] lt(r[i], r[j]) by {
            if i == 0 {
                assert(r[j] == rt[j - 1]);
                assert(rt.contains(rt[j - 1]));
                if rt[j - 1] != k {
                    assert(t.contains(rt[j - 1]));
                    let m = choose|m: int| 0 <= m < t.len() && t[m] == rt[j - 1];
                    assert(lt(s[0], s[m + 1]));
                }
            } else {
                assert(r[i] == rt[i - 1]);
                assert(r[j] == rt[j - 1]);
            }
        }
    } else {
        assert(r =~= seq![k] + s);
        assert(s[0] != k);
        assert(lt(k, s[0]));
        assert forall|x: T| #[trigger] r.contains(x) <==> s.contains(x) || x == k by {
            if r.contains(x) {
                let i = choose|i: int| 0 <= i < r.len() && r[i] == x;
                if i > 0 {
                    assert(s[i - 1] == x);
                }
            }
            if s.contains(x) {
                let j = choose|j: int| 0 <= j < s.len() && s[j] == x;
                assert(r[j + 1] == x);
            }
            if x == k {
                assert(r[0] == k);
            }
        }
        assert forall|i: int, j: int| 0 <= i < j < r.len() implies #[trigger] lt(r[i], r[j]) by {
            if i == 0 {
                if j > 1 {
                    assert(lt(s[0], s[j - 1]));
                }
            } else {
                assert(lt(s[i - 1], s[j - 1]));
            }
        }
    }
}

} // verus!
