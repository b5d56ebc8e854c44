//! Association sequences keyed by symbol: the spec-level model shared by the
//! portfolio's position table and last-price table. The first entry with a
//! key decides; well-formed tables keep keys distinct.

use vstd::prelude::*;

verus! {

/// The first entry whose key is `sym`, if any.
pub open spec fn assoc_get<T>(s: Seq<T>, key: spec_fn(T) -> Seq<char>, sym: Seq<char>) -> Option<
    T,
>
    decreases s.len(),
{
    if s.len() == 0 {
        None
    } else if key(s[0]) == sym {
        Some(s[0])
    } else {
        assoc_get(s.skip(1), key, sym)
    }
}

/// No two entries share a key.
pub open spec fn assoc_distinct<T>(s: Seq<T>, key: spec_fn(T) -> Seq<char>) -> bool {
    forall|i: int, j: int| 0 <= i < j < s.len() ==> key(s[i]) != key(s[j])
}

/// A first occurrence at `i` fixes the lookup.
pub proof fn lemma_assoc_get_found<T>(s: Seq<T>, key: spec_fn(T) -> Seq<char>, i: int)
    requires
        0 <= i < s.len(),
        forall|j: int| 0 <= j < i ==> key(s[j]) != key(s[i]),
    ensures
        assoc_get(s, key, key(s[i])) == Some(s[i]),
    decreases i,
{
    if i == 0 {
    } else {
        assert(s.skip(1)[i - 1] == s[i]);
        assert(forall|j: int| 0 <= j < i - 1 ==> #[trigger] s.skip(1)[j] == s[j + 1]);
        lemma_assoc_get_found(s.skip(1), key, i - 1);
    }
}

/// A key absent from every entry is not found.
pub proof fn lemma_assoc_get_absent<T>(s: Seq<T>, key: spec_fn(T) -> Seq<char>, sym: Seq<char>)
    requires
        forall|j: int| 0 <= j < s.len() ==> key(#[trigger] s[j]) != sym,
    ensures
        assoc_get(s, key, sym) is None,
    decreases s.len(),
{
    if s.len() > 0 {
        assert(forall|j: int| 0 <= j < s.len() - 1 ==> #[trigger] s.skip(1)[j] == s[j + 1]);
        lemma_assoc_get_absent(s.skip(1), key, sym);
    }
}

/// Replacing the entry at `i` with one of the same key changes only that
/// key's lookup.
pub proof fn lemma_assoc_get_update<T>(
    s: Seq<T>,
    key: spec_fn(T) -> Seq<char>,
    i: int,
    v: T,
    sym: Seq<char>,
)
    requires
        0 <= i < s.len(),
        key(v) == key(s[i]),
        sym != key(s[i]),
    ensures
        assoc_get(s.update(i, v), key, sym) == assoc_get(s, key, sym),
    decreases i,
{
    if i == 0 {
        assert(s.update(0, v).skip(1) =~= s.skip(1));
    } else {
        if key(s[0]) == sym {
            assert(s.update(i, v)[0] == s[0]);
        } else {
            assert(s.update(i, v).skip(1) =~= s.skip(1).update(i - 1, v));
            lemma_assoc_get_update(s.skip(1), key, i - 1, v, sym);
        }
    }
}

/// Appending an entry with a fresh key makes it that key's lookup.
pub proof fn lemma_assoc_get_append_target<T>(s: Seq<T>, key: spec_fn(T) -> Seq<char>, v: T)
    requires
        forall|j: int| 0 <= j < s.len() ==> key(#[trigger] s[j]) != key(v),
    ensures
        assoc_get(s.push(v), key, key(v)) == Some(v),
    decreases s.len(),
{
    if s.len() == 0 {
        assert(s.push(v)[0] == v);
    } else {
        assert(forall|j: int| 0 <= j < s.len() - 1 ==> #[trigger] s.skip(1)[j] == s[j + 1]);
        assert(s.push(v).skip(1) =~= s.skip(1).push(v));
        lemma_assoc_get_append_target(s.skip(1), key, v);
    }
}

/// Appending an entry leaves every other key's lookup as it was.
pub proof fn lemma_assoc_get_append_other<T>(
    s: Seq<T>,
    key: spec_fn(T) -> Seq<char>,
    v: T,
    sym: Seq<char>,
)
    requires
        sym != key(v),
    ensures
        assoc_get(s.push(v), key, sym) == assoc_get(s, key, sym),
    decreases s.len(),
{
    if s.len() == 0 {
        assert(s.push(v)[0] == v);
        assert(s.push(v).skip(1) =~= Seq::<T>::empty());
        reveal_with_fuel(assoc_get, 3);
    } else {
        if key(s[0]) == sym {
            assert(s.push(v)[0] == s[0]);
        } else {
            assert(s.push(v).skip(1) =~= s.skip(1).push(v));
            lemma_assoc_get_append_other(s.skip(1), key, v, sym);
        }
    }
}

/// Removing the entry at `i` leaves every other key's lookup as it was.
pub proof fn lemma_assoc_get_remove_other<T>(
    s: Seq<T>,
    key: spec_fn(T) -> Seq<char>,
    i: int,
    sym: Seq<char>,
)
    requires
        0 <= i < s.len(),
        sym != key(s[i]),
    ensures
        assoc_get(s.remove(i), key, sym) == assoc_get(s, key, sym),
    decreases i,
{
    if i == 0 {
        assert(s.remove(0) =~= s.skip(1));
    } else {
        if key(s[0]) == sym {
            assert(s.remove(i)[0] == s[0]);
        } else {
            assert(s.remove(i).skip(1) =~= s.skip(1).remove(i - 1));
            lemma_assoc_get_remove_other(s.skip(1), key, i - 1, sym);
        }
    }
}

} // verus!
