//! Stable ordering of modifiers by play order and identity.
use vstd::prelude::*;

verus! {

/// A value with the key it is ordered by: play order first, then identity.
#[derive(Clone, Copy, Debug, PartialEq, Eq, Structural)]
pub struct Keyed<T> {
    pub order: u64,
    pub id: u64,
    pub value: T,
}

/// Whether `a` comes no later than `b`.
pub open spec fn key_le<T>(a: Keyed<T>, b: Keyed<T>) -> bool {
    a.order < b.order || (a.order == b.order && a.id <= b.id)
}

/// Inserts `x` after every element whose key is not greater than its own.
pub open spec fn insert_sorted<T>(s: Seq<Keyed<T>>, x: Keyed<T>) -> Seq<Keyed<T>>
    decreases s.len(),
{
    if s.len() == 0 {
        seq![x]
    } else if key_le(s.last(), x) {
        s.push(x)
    } else {
        insert_sorted(s.drop_last(), x).push(s.last())
    }
}

/// The stable sort of `s` by key: equal keys keep their relative order.
pub open spec fn sort_keyed<T>(s: Seq<Keyed<T>>) -> Seq<Keyed<T>>
    decreases s.len(),
{
    if s.len() == 0 {
        Seq::empty()
    } else {
        insert_sorted(sort_keyed(s.drop_last()), s.last())
    }
}

/// Inserting at the position found from the back is `insert_sorted`.
pub proof fn lemma_insert_position<T>(s: Seq<Keyed<T>>, x: Keyed<T>, j: int)
    requires
        0 <= j <= s.len(),
        forall|k: int| j <= k < s.len() ==> !key_le(#[trigger] s[k], x),
        j > 0 ==> key_le(s[j - 1], x),
    ensures
        insert_sorted(s, x) == s.insert(j, x),
    decreases s.len(),
{
    if s.len() == 0 {
        assert(s.insert(j, x) =~= seq![x]);
    } else if j == s.len() {
        assert(s.insert(j, x) =~= s.push(x));
    } else {
        let t = s.drop_last();
        assert(!key_le(s[s.len() - 1], x));
        lemma_insert_position(t, x, j);
        assert(s.insert(j, x) =~= t.insert(j, x).push(s.last()));
    }
}

/// Appends `x` to a sorted vector at its stable place.
pub fn insert_keyed<T: Copy>(v: &mut Vec<Keyed<T>>, x: Keyed<T>)
    ensures
        final(v)@ == insert_sorted(old(v)@, x),
{
    let mut j = v.len();
    while j > 0 && !(v[j - 1].order < x.order || (v[j - 1].order == x.order && v[j - 1].id <= x.id))
        invariant
            j <= v@.len(),
            forall|k: int| j <= k < v@.len() ==> !key_le(#[trigger] v@[k], x),
        decreases j,
    {
        j = j - 1;
    }
    proof {
        lemma_insert_position(v@, x, j as int);
    }
    v.insert(j, x);
}


/// Whether `s` is ordered by key.
pub open spec fn sorted_keys<T>(s: Seq<Keyed<T>>) -> bool {
    forall|i: int, j: int| 0 <= i < j < s.len() ==> key_le(#[trigger] s[i], #[trigger] s[j])
}

/// Sorted insertion keeps a sorted sequence sorted.
pub proof fn lemma_insert_sorted_sorted<T>(s: Seq<Keyed<T>>, x: Keyed<T>)
    requires
        sorted_keys(s),
    ensures
        sorted_keys(insert_sorted(s, x)),
    decreases s.len(),
{
    if s.len() == 0 {
    } else if key_le(s.last(), x) {
        let u = s.push(x);
        assert forall|i: int, j: int| 0 <= i < j < u.len() implies key_le(#[trigger] u[i], #[trigger] u[j]) by {
            if j == s.len() {
                if i < s.len() - 1 {
                    assert(key_le(s[i], s[s.len() - 1]));
                }
            }
        }
    } else {
        let d = s.drop_last();
        let t = insert_sorted(d, x);
        lemma_insert_sorted_sorted(d, x);
        crate::aura::lemma_insert_keeps_members(d, x);
        let u = t.push(s.last());
        assert forall|i: int, j: int| 0 <= i < j < u.len() implies key_le(#[trigger] u[i], #[trigger] u[j]) by {
            if j == t.len() {
                assert(t.contains(t[i]));
                if t[i] != x {
                    let m = choose|m: int| 0 <= m < d.len() && d[m] == t[i];
                    assert(key_le(s[m], s[s.len() - 1]));
                }
            } else {
                assert(u[i] == t[i] && u[j] == t[j]);
            }
        }
    }
}

/// Sorting yields a sequence ordered by key.
pub proof fn lemma_sort_sorted<T>(s: Seq<Keyed<T>>)
    ensures
        sorted_keys(sort_keyed(s)),
    decreases s.len(),
{
    if s.len() > 0 {
        lemma_sort_sorted(s.drop_last());
        lemma_insert_sorted_sorted(sort_keyed(s.drop_last()), s.last());
    }
}

/// Sorted insertion of a new element keeps a sequence free of repeats.
pub proof fn lemma_insert_no_duplicates<T>(s: Seq<Keyed<T>>, x: Keyed<T>)
    requires
        s.no_duplicates(),
        !s.contains(x),
    ensures
        insert_sorted(s, x).no_duplicates(),
    decreases s.len(),
{
    if s.len() == 0 {
        assert(insert_sorted(s, x) =~= seq![x]);
    } else if key_le(s.last(), x) {
        let u = s.push(x);
        assert forall|i: int, j: int| 0 <= i < u.len() && 0 <= j < u.len() && i != j implies u[i] != u[j] by {
            if i == s.len() {
                assert(s.contains(u[j]));
            } else if j == s.len() {
                assert(s.contains(u[i]));
            }
        }
    } else {
        let d = s.drop_last();
        assert(!d.contains(x)) by {
            if d.contains(x) {
                let m = choose|m: int| 0 <= m < d.len() && d[m] == x;
                assert(s[m] == x);
            }
        }
        assert(!d.contains(s.last())) by {
            if d.contains(s.last()) {
                let m = choose|m: int| 0 <= m < d.len() && d[m] == s.last();
                assert(s[m] == s[s.len() - 1]);
            }
        }
        lemma_insert_no_duplicates(d, x);
        crate::aura::lemma_insert_keeps_members(d, x);
        let t = insert_sorted(d, x);
        assert(s.contains(s.last())) by {
            assert(s[s.len() - 1] == s.last());
        }
        assert(!t.contains(s.last()));
        let u = t.push(s.last());
        assert forall|i: int, j: int| 0 <= i < u.len() && 0 <= j < u.len() && i != j implies u[i] != u[j] by {
            if i == t.len() {
                assert(t.contains(u[j]));
            } else if j == t.len() {
                assert(t.contains(u[i]));
            } else {
                assert(u[i] == t[i] && u[j] == t[j]);
            }
        }
    }
}

/// Sorting keeps a sequence free of repeats.
pub proof fn lemma_sort_no_duplicates<T>(s: Seq<Keyed<T>>)
    requires
        s.no_duplicates(),
    ensures
        sort_keyed(s).no_duplicates(),
    decreases s.len(),
{
    if s.len() > 0 {
        let d = s.drop_last();
        assert(d.no_duplicates());
        assert(!d.contains(s.last())) by {
            if d.contains(s.last()) {
                let m = choose|m: int| 0 <= m < d.len() && d[m] == s.last();
                assert(s[m] == s[s.len() - 1]);
            }
        }
        lemma_sort_no_duplicates(d);
        crate::aura::lemma_sort_keeps_members(d);
        lemma_insert_no_duplicates(sort_keyed(d), s.last());
    }
}

/// Sorting a sequence already ordered by key leaves it as it is.
pub proof fn lemma_sort_of_sorted<T>(s: Seq<Keyed<T>>)
    requires
        sorted_keys(s),
    ensures
        sort_keyed(s) == s,
    decreases s.len(),
{
    if s.len() > 0 {
        let d = s.drop_last();
        assert(sorted_keys(d)) by {
            assert forall|i: int, j: int| 0 <= i < j < d.len() implies key_le(#[trigger] d[i], #[trigger] d[j]) by {
                assert(key_le(s[i], s[j]));
            }
        }
        lemma_sort_of_sorted(d);
        if d.len() == 0 {
            assert(seq![s.last()] =~= s);
        } else {
            assert(key_le(s[d.len() - 1], s[s.len() - 1]));
            assert(d.push(s.last()) =~= s);
        }
    }
}

} // verus!
