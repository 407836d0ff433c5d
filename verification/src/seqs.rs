use vstd::prelude::*;

verus! {

/// Removing the first occurrence of `x`, found at `i`, is removing index `i`.
pub proof fn lemma_remove_value_at<A>(s: Seq<A>, x: A, i: int)
    requires
        0 <= i < s.len(),
        s[i] == x,
        forall|j: int| 0 <= j < i ==> s[j] != x,
    ensures
        s.remove_value(x) == s.remove(i),
{
    s.index_of_first_ensures(x);
    let k = s.index_of_first(x);
    assert(k == Some(i)) by {
        match k {
            Some(k0) => {
                if k0 < i {
                } else if k0 > i {
                    assert(s[i] != x);
                }
            },
            None => {
                assert(s.contains(x));
            },
        }
    }
}

/// Removing a value from a sequence without duplicates leaves the other values,
/// each once.
pub proof fn lemma_remove_value_no_dup<A>(s: Seq<A>, x: A)
    requires
        s.no_duplicates(),
    ensures
        s.remove_value(x).no_duplicates(),
        forall|y: A| #[trigger] s.remove_value(x).contains(y) <==> (s.contains(y) && y != x),
        s.contains(x) ==> s.remove_value(x).len() == s.len() - 1,
        !s.contains(x) ==> s.remove_value(x) == s,
{
    s.index_of_first_ensures(x);
    match s.index_of_first(x) {
        Some(i) => {
            let r = s.remove(i);
            s.remove_ensures(i);
            assert(s.remove_value(x) == r);
            assert forall|y: A| #[trigger] r.contains(y) <==> (s.contains(y) && y != x) by {
                if r.contains(y) {
                    let k = choose|k: int| 0 <= k < r.len() && r[k] == y;
                    if k < i {
                        assert(s[k] == y);
                    } else {
                        assert(s[k + 1] == y);
                    }
                }
                if s.contains(y) && y != x {
                    let k = choose|k: int| 0 <= k < s.len() && s[k] == y;
                    if k < i {
                        assert(r[k] == y);
                    } else {
                        assert(k != i);
                        assert(r[k - 1] == y);
                    }
                }
            }
            assert forall|a: int, b: int| 0 <= a < r.len() && 0 <= b < r.len() && a != b implies r[a] != r[b] by {
                let a2 = if a < i { a } else { a + 1 };
                let b2 = if b < i { b } else { b + 1 };
                assert(r[a] == s[a2]);
                assert(r[b] == s[b2]);
            }
        },
        None => {},
    }
}

/// Putting a value that does not occur in front keeps the values distinct.
pub proof fn lemma_prepend<A>(s: Seq<A>, x: A)
    ensures
        forall|y: A| #[trigger] (seq![x] + s).contains(y) <==> (y == x || s.contains(y)),
        (s.no_duplicates() && !s.contains(x)) ==> (seq![x] + s).no_duplicates(),
        (seq![x] + s).len() == s.len() + 1,
        (seq![x] + s)[0] == x,
        forall|k: int| 0 <= k < s.len() ==> #[trigger] (seq![x] + s)[k + 1] == s[k],
{
    let r = seq![x] + s;
    assert forall|y: A| #[trigger] r.contains(y) <==> (y == x || s.contains(y)) by {
        if r.contains(y) {
            let k = choose|k: int| 0 <= k < r.len() && r[k] == y;
            if k > 0 {
                assert(s[k - 1] == y);
            }
        }
        if y == x {
            assert(r[0] == y);
        }
        if s.contains(y) {
            let k = choose|k: int| 0 <= k < s.len() && s[k] == y;
            assert(r[k + 1] == y);
        }
    }
    if s.no_duplicates() && !s.contains(x) {
        assert forall|a: int, b: int| 0 <= a < r.len() && 0 <= b < r.len() && a != b implies r[a] != r[b] by {
            if a == 0 && b > 0 {
                assert(r[b] == s[b - 1]);
            } else if b == 0 && a > 0 {
                assert(r[a] == s[a - 1]);
            } else if a > 0 && b > 0 {
                assert(r[a] == s[a - 1]);
                assert(r[b] == s[b - 1]);
            }
        }
    }
}


/// Distinct numbers below `n` are at most `n` many.
pub proof fn lemma_distinct_below(s: Seq<usize>, n: nat)
    requires
        s.no_duplicates(),
        forall|k: int| 0 <= k < s.len() ==> (#[trigger] s[k] as int) < n,
    ensures
        s.len() <= n,
    decreases n,
{
    if n == 0 {
        if s.len() > 0 {
            assert((s[0] as int) < 0);
        }
    } else {
        let top = (n - 1) as usize;
        lemma_remove_value_no_dup(s, top);
        let r = s.remove_value(top);
        assert forall|k: int| 0 <= k < r.len() implies (#[trigger] r[k] as int) < n - 1 by {
            assert(r.contains(r[k]));
            assert(s.contains(r[k]) && r[k] != top);
            let j = choose|j: int| 0 <= j < s.len() && s[j] == r[k];
            assert((s[j] as int) < n);
        }
        lemma_distinct_below(r, (n - 1) as nat);
    }
}

} // verus!
