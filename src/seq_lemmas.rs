use vstd::prelude::*;

verus! {

/// Removing position `k` keeps every other element and adds none.
pub proof fn lemma_remove_contains<A>(s: Seq<A>, k: int, x: A)
    requires
        0 <= k < s.len(),
    ensures
        s.remove(k).contains(x) ==> s.contains(x),
        s.contains(x) && x != s[k] ==> s.remove(k).contains(x),
{
    if s.remove(k).contains(x) {
        let j = choose|j: int| 0 <= j < s.remove(k).len() && s.remove(k)[j] == x;
        if j < k {
            assert(s[j] == x);
        } else {
            assert(s[j + 1] == x);
        }
    }
    if s.contains(x) && x != s[k] {
        let j = choose|j: int| 0 <= j < s.len() && s[j] == x;
        if j < k {
            assert(s.remove(k)[j] == x);
        } else {
            assert(s.remove(k)[j - 1] == x);
        }
    }
}

/// Pushing `v` adds exactly `v`.
pub proof fn lemma_push_contains<A>(s: Seq<A>, v: A, x: A)
    ensures
        s.push(v).contains(x) <==> s.contains(x) || x == v,
{
    if s.contains(x) {
        let j = choose|j: int| 0 <= j < s.len() && s[j] == x;
        assert(s.push(v)[j] == x);
    }
    if x == v {
        assert(s.push(v)[s.len() as int] == x);
    }
    if s.push(v).contains(x) && x != v {
        let j = choose|j: int| 0 <= j < s.push(v).len() && s.push(v)[j] == x;
        assert(s[j] == x);
    }
}

/// Removing a position of a sequence without duplicates removes exactly its
/// element from the set of elements, and leaves no duplicates.
pub proof fn lemma_remove_no_duplicates<A>(s: Seq<A>, k: int)
    requires
        s.no_duplicates(),
        0 <= k < s.len(),
    ensures
        s.remove(k).no_duplicates(),
        s.remove(k).to_set() == s.to_set().remove(s[k]),
{
    let r = s.remove(k);
    assert forall|i: int, j: int| 0 <= i < r.len() && 0 <= j < r.len() && i != j implies r[i] != r[j] by {
        let si = if i < k { i } else { i + 1 };
        let sj = if j < k { j } else { j + 1 };
        assert(r[i] == s[si] && r[j] == s[sj]);
    }
    assert forall|x: A| r.contains(x) <==> s.contains(x) && x != s[k] by {
        lemma_remove_contains(s, k, x);
        if r.contains(x) {
            let j = choose|j: int| 0 <= j < r.len() && r[j] == x;
            let sj = if j < k { j } else { j + 1 };
            assert(s[sj] == x);
        }
    }
    assert(r.to_set() =~= s.to_set().remove(s[k]));
}

/// Pushing a new element keeps a sequence free of duplicates and adds it to
/// the set of elements.
pub proof fn lemma_push_no_duplicates<A>(s: Seq<A>, v: A)
    requires
        s.no_duplicates(),
        !s.contains(v),
    ensures
        s.push(v).no_duplicates(),
        s.push(v).to_set() == s.to_set().insert(v),
{
    let r = s.push(v);
    assert forall|i: int, j: int| 0 <= i < r.len() && 0 <= j < r.len() && i != j implies r[i] != r[j] by {
        if i < s.len() && j < s.len() {
            assert(r[i] == s[i] && r[j] == s[j]);
        } else if i < s.len() {
            assert(r[i] == s[i]);
            assert(s.contains(s[i]));
        } else {
            assert(r[j] == s[j]);
            assert(s.contains(s[j]));
        }
    }
    assert forall|x: A| r.contains(x) <==> s.contains(x) || x == v by {
        lemma_push_contains(s, v, x);
    }
    assert(r.to_set() =~= s.to_set().insert(v));
}

} // verus!
