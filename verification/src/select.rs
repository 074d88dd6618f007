//! Choosing the largest of a list of keys.
use vstd::prelude::*;

verus! {

/// Index `a` ranks before index `b`: a larger key, or the same key further left.
pub open spec fn ranks_before(keys: Seq<i64>, a: int, b: int) -> bool {
    keys[a] > keys[b] || (keys[a] == keys[b] && a < b)
}

/// Index `i` ranks before every other index that is not taken.
pub open spec fn is_best(keys: Seq<i64>, taken: Seq<usize>, i: usize) -> bool {
    &&& i < keys.len()
    &&& !taken.contains(i)
    &&& forall|j: usize|
        j < keys.len() && !taken.contains(j) && j != i ==> #[trigger] ranks_before(
            keys,
            i as int,
            j as int,
        )
}

/// The first `k` indices in rank order.
pub open spec fn top(keys: Seq<i64>, k: nat) -> Seq<usize>
    decreases k,
{
    if k == 0 {
        Seq::empty()
    } else {
        let taken = top(keys, (k - 1) as nat);
        taken.push(choose|i: usize| is_best(keys, taken, i))
    }
}

proof fn lemma_best_is_unique(keys: Seq<i64>, taken: Seq<usize>, a: usize, b: usize)
    requires
        is_best(keys, taken, a),
        is_best(keys, taken, b),
    ensures
        a == b,
{
    if a != b {
        assert(ranks_before(keys, a as int, b as int));
        assert(ranks_before(keys, b as int, a as int));
    }
}

/// Whether `i` occurs in `s`.
fn occurs(s: &[usize], i: usize) -> (r: bool)
    ensures
        r == s@.contains(i),
{
    let mut j: usize = 0;
    while j < s.len()
        invariant
            j <= s@.len(),
            forall|m: int| 0 <= m < j ==> s@[m] != i,
        decreases s@.len() - j,
    {
        if s[j] == i {
            return true;
        }
        j += 1;
    }
    false
}

/// The indices of the `k` largest keys, largest first; of equal keys the leftmost first.
pub fn top_indices(keys: &[i64], k: usize) -> (r: Vec<usize>)
    requires
        k <= keys@.len(),
    ensures
        r@ == top(keys@, k as nat),
{
    let mut r: Vec<usize> = Vec::new();
    while r.len() < k
        invariant
            k <= keys@.len(),
            r@.len() <= k,
            r@ == top(keys@, r@.len()),
            r@.no_duplicates(),
            forall|m: int| 0 <= m < r@.len() ==> #[trigger] r@[m] < keys@.len(),
        decreases k - r@.len(),
    {
        let mut found: bool = false;
        let mut best: usize = 0;
        let mut i: usize = 0;
        while i < keys.len()
            invariant
                i <= keys@.len(),
                found ==> best < i && !r@.contains(best),
                found ==> forall|j: usize|
                    j < i && !r@.contains(j) && j != best ==> #[trigger] ranks_before(
                        keys@,
                        best as int,
                        j as int,
                    ),
                !found ==> forall|j: usize| j < i ==> #[trigger] r@.contains(j),
            decreases keys@.len() - i,
        {
            if !occurs(r.as_slice(), i) {
                if !found || keys[i] > keys[best] {
                    proof {
                        if found {
                            assert forall|j: usize|
                                j < i && !r@.contains(j) implies #[trigger] ranks_before(
                                keys@,
                                i as int,
                                j as int,
                            ) by {
                                if j != best {
                                    assert(ranks_before(keys@, best as int, j as int));
                                }
                            }
                        }
                    }
                    best = i;
                    found = true;
                }
            }
            i += 1;
        }
        proof {
            if !found {
                lemma_all_taken(r@, keys@.len() as int);
            }
            assert(is_best(keys@, r@, best));
            let c = choose|c: usize| is_best(keys@, r@, c);
            lemma_best_is_unique(keys@, r@, best, c);
            assert(top(keys@, r@.len() + 1) == r@.push(best));
        }
        r.push(best);
    }
    r
}

/// A list without duplicates that holds every index below `n` is at least `n` long.
proof fn lemma_all_taken(s: Seq<usize>, n: int)
    requires
        0 <= n <= usize::MAX,
        forall|j: usize| j < n ==> #[trigger] s.contains(j),
    ensures
        s.len() >= n,
{
    let idx = Seq::new(n as nat, |j: int| j as usize);
    assert(idx.no_duplicates());
    idx.unique_seq_to_set();
    assert(idx.to_set().subset_of(s.to_set())) by {
        assert forall|a: usize| idx.to_set().contains(a) implies s.to_set().contains(a) by {
            let j = choose|j: int| 0 <= j < idx.len() && idx[j] == a;
            assert(s.contains(j as usize));
        }
    }
    s.lemma_cardinality_of_set();
    vstd::set_lib::lemma_len_subset(idx.to_set(), s.to_set());
}

/// Some index is not in a shorter list.
proof fn lemma_best_exists(keys: Seq<i64>, taken: Seq<usize>)
    requires
        taken.len() < keys.len() <= usize::MAX,
    ensures
        exists|i: usize| is_best(keys, taken, i),
{
    if forall|j: usize| j < keys.len() ==> taken.contains(j) {
        lemma_all_taken(taken, keys.len() as int);
    }
    let free = choose|j: usize| j < keys.len() && !taken.contains(j);
    lemma_best_up_to(keys, taken, keys.len() as int, free);
}

proof fn lemma_best_up_to(keys: Seq<i64>, taken: Seq<usize>, n: int, free: usize)
    requires
        0 <= n <= keys.len() <= usize::MAX,
        free < n,
        !taken.contains(free),
    ensures
        exists|i: usize|
            #![trigger taken.contains(i)]
            i < n && !taken.contains(i) && forall|j: usize|
                j < n && !taken.contains(j) && j != i ==> #[trigger] ranks_before(
                    keys,
                    i as int,
                    j as int,
                ),
        n == keys.len() ==> exists|i: usize| is_best(keys, taken, i),
    decreases n,
{
    let last = (n - 1) as usize;
    let other = forall|j: usize| j < n - 1 ==> taken.contains(j);
    if other {
        assert(free == last);
        assert(!taken.contains(last) && forall|j: usize|
            j < n && !taken.contains(j) && j != last ==> #[trigger] ranks_before(
                keys,
                last as int,
                j as int,
            ));
        if n == keys.len() {
            assert(is_best(keys, taken, last));
        }
    } else {
        let f = choose|j: usize| j < n - 1 && !taken.contains(j);
        lemma_best_up_to(keys, taken, n - 1, f);
        let b = choose|i: usize|
            #![trigger taken.contains(i)]
            i < n - 1 && !taken.contains(i) && forall|j: usize|
                j < n - 1 && !taken.contains(j) && j != i ==> #[trigger] ranks_before(
                    keys,
                    i as int,
                    j as int,
                );
        let w = if !taken.contains(last) && keys[last as int] > keys[b as int] {
            last
        } else {
            b
        };
        assert(!taken.contains(w));
        assert forall|j: usize| j < n && !taken.contains(j) && j != w implies #[trigger]
            ranks_before(keys, w as int, j as int) by {
            if j < n - 1 && j != b {
                assert(ranks_before(keys, b as int, j as int));
            }
        }
        if n == keys.len() {
            assert(is_best(keys, taken, w));
        }
    }
}

/// What [`top`] holds: `k` different indices, each the best of those not yet taken.
proof fn lemma_top(keys: Seq<i64>, k: nat)
    requires
        k <= keys.len() <= usize::MAX,
    ensures
        top(keys, k).len() == k,
        top(keys, k).no_duplicates(),
        forall|m: int|
            0 <= m < k ==> is_best(keys, top(keys, k).subrange(0, m), #[trigger] top(keys, k)[m]),
    decreases k,
{
    if k > 0 {
        let n = (k - 1) as nat;
        lemma_top(keys, n);
        let t = top(keys, n);
        lemma_best_exists(keys, t);
        let b = choose|i: usize| is_best(keys, t, i);
        assert(top(keys, k) == t.push(b));
        assert forall|m: int| 0 <= m < k implies is_best(
            keys,
            top(keys, k).subrange(0, m),
            #[trigger] top(keys, k)[m],
        ) by {
            if m < n {
                assert(t.push(b).subrange(0, m) =~= t.subrange(0, m));
                assert(t[m] == top(keys, k)[m]);
            } else {
                assert(t.push(b).subrange(0, m) =~= t);
            }
        }
        assert forall|x: int, y: int| 0 <= x < k && 0 <= y < k && x != y implies top(keys, k)[x]
            != top(keys, k)[y] by {
            if x == n {
                assert(t.contains(t[y]));
            } else if y == n {
                assert(t.contains(t[x]));
            }
        }
    }
}

/// The chosen indices are `k` different ones, in rank order, and each ranks before every
/// index that is not chosen: no key left out is larger than a key chosen.
pub proof fn top_ranks_first(keys: Seq<i64>, k: nat)
    requires
        k <= keys.len() <= usize::MAX,
    ensures
        top(keys, k).len() == k,
        top(keys, k).no_duplicates(),
        forall|m: int| 0 <= m < k ==> (#[trigger] top(keys, k)[m]) < keys.len(),
        forall|a: int, b: int|
            0 <= a < b < k ==> ranks_before(
                keys,
                (#[trigger] top(keys, k)[a]) as int,
                (#[trigger] top(keys, k)[b]) as int,
            ),
        forall|a: int, j: usize|
            0 <= a < k && j < keys.len() && !(#[trigger] top(keys, k).contains(j))
                ==> ranks_before(keys, (#[trigger] top(keys, k)[a]) as int, j as int) && keys[top(
                keys,
                k,
            )[a] as int] >= keys[j as int],
{
    lemma_top(keys, k);
    let t = top(keys, k);
    assert forall|m: int| 0 <= m < k implies (#[trigger] t[m]) < keys.len() by {
        assert(is_best(keys, t.subrange(0, m), t[m]));
    }
    assert forall|a: int, b: int| 0 <= a < b < k implies ranks_before(
        keys,
        (#[trigger] t[a]) as int,
        (#[trigger] t[b]) as int,
    ) by {
        assert(is_best(keys, t.subrange(0, a), t[a]));
        assert(is_best(keys, t.subrange(0, b), t[b]));
        if t.subrange(0, a).contains(t[b]) {
            let m = choose|m: int| 0 <= m < a && t.subrange(0, a)[m] == t[b];
            assert(t[m] == t[b]);
        }
    }
    assert forall|a: int, j: usize|
        0 <= a < k && j < keys.len() && !(#[trigger] t.contains(j)) implies ranks_before(
        keys,
        (#[trigger] t[a]) as int,
        j as int,
    ) && keys[t[a] as int] >= keys[j as int] by {
        assert(is_best(keys, t.subrange(0, a), t[a]));
        if t.subrange(0, a).contains(j) {
            let m = choose|m: int| 0 <= m < a && t.subrange(0, a)[m] == j;
            assert(t[m] == j);
        }
        assert(t.contains(t[a]));
    }
}

} // verus!
