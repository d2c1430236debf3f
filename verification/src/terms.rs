//! The term table: every ordered, non-repeating, non-empty sequence drawn
//! from `{0, …, n-1}`, enumerated in a fixed deterministic order (grouped by
//! increasing length, lexicographic within one length), together with the
//! bijection between a term and its dense position in that table.

use vstd::prelude::*;

verus! {

use vstd::seq_lib::lemma_seq_contains_after_push;

/// A term for universe size `n`: a non-empty sequence of distinct variable
/// identifiers below `n`. Its length can never exceed `n`.
pub open spec fn is_term(n: usize, t: Seq<usize>) -> bool {
    &&& 1 <= t.len() <= n
    &&& forall|i: int| 0 <= i < t.len() ==> (#[trigger] t[i]) < n
    &&& forall|i: int, j: int| 0 <= i < j < t.len() ==> t[i] != t[j]
}

/// The element-wise views of a sequence of vectors.
pub open spec fn views(s: Seq<Vec<usize>>) -> Seq<Seq<usize>> {
    Seq::new(s.len(), |i: int| s[i]@)
}

/// The extensions of `p` by one trailing identifier `d < bound` with
/// `d` not already in `p`, in increasing order of `d`.
pub open spec fn exts(p: Seq<usize>, bound: usize) -> Seq<Seq<usize>>
    decreases bound,
{
    if bound == 0 {
        Seq::empty()
    } else {
        let d = (bound - 1) as usize;
        exts(p, d) + (if p.contains(d) {
            Seq::<Seq<usize>>::empty()
        } else {
            seq![p.push(d)]
        })
    }
}

/// All extensions by one identifier below `n`, of each element of `ps` in
/// turn.
pub open spec fn extend_all(n: usize, ps: Seq<Seq<usize>>) -> Seq<Seq<usize>>
    decreases ps.len(),
{
    if ps.len() == 0 {
        Seq::empty()
    } else {
        extend_all(n, ps.drop_last()) + exts(ps.last(), n)
    }
}

/// The length-`k` permutations of identifiers below `n`, in lexicographic
/// order.
pub open spec fn perms(n: usize, k: usize) -> Seq<Seq<usize>>
    decreases k,
{
    if k == 0 {
        seq![Seq::<usize>::empty()]
    } else {
        extend_all(n, perms(n, (k - 1) as usize))
    }
}

/// The term-table blocks of length 1 up to `k`, concatenated in order of
/// increasing length.
pub open spec fn table_upto(n: usize, k: usize) -> Seq<Seq<usize>>
    decreases k,
{
    if k == 0 {
        Seq::empty()
    } else {
        table_upto(n, (k - 1) as usize) + perms(n, k)
    }
}

/// The full term table for universe size `n`.
pub open spec fn term_table(n: usize) -> Seq<Seq<usize>> {
    table_upto(n, n)
}

/// The dense position of term `t` in the term table for universe size `n`.
pub open spec fn term_index(n: usize, t: Seq<usize>) -> int {
    term_table(n).index_of(t)
}

/// Identifiers below `n`, pairwise distinct; a term without the length
/// bounds.
pub open spec fn perm_elems(n: usize, t: Seq<usize>) -> bool {
    &&& forall|i: int| 0 <= i < t.len() ==> (#[trigger] t[i]) < n
    &&& forall|i: int, j: int| 0 <= i < j < t.len() ==> t[i] != t[j]
}

proof fn lemma_exts(p: Seq<usize>, bound: usize)
    ensures
        forall|i: int|
            0 <= i < exts(p, bound).len() ==> {
                &&& (#[trigger] exts(p, bound)[i]).len() == p.len() + 1
                &&& exts(p, bound)[i].drop_last() == p
                &&& exts(p, bound)[i].last() < bound
                &&& !p.contains(exts(p, bound)[i].last())
            },
        forall|d: usize| d < bound && !p.contains(d) ==> exts(p, bound).contains(p.push(d)),
        forall|i: int, j: int|
            0 <= i < j < exts(p, bound).len() ==> exts(p, bound)[i].last() < exts(
                p,
                bound,
            )[j].last(),
    decreases bound,
{
    if bound == 0 {
    } else {
        let d = (bound - 1) as usize;
        lemma_exts(p, d);
        let prev = exts(p, d);
        let cur = exts(p, bound);
        if !p.contains(d) {
            let q = p.push(d);
            assert(cur == prev + seq![q]);
            assert(cur[prev.len() as int] == q);
            assert(q.drop_last() =~= p);
            assert(q.last() == d);
            // completeness: a digit below `bound` is either `d` itself or
            // covered by the recursive call, whose entries carry over.
            assert forall|e: usize| e < bound && !p.contains(e) implies cur.contains(
                p.push(e),
            ) by {
                if e < d {
                    let w = choose|w: int| 0 <= w < prev.len() && prev[w] == p.push(e);
                    assert(cur[w] == p.push(e));
                } else {
                    assert(cur[prev.len() as int] == p.push(e));
                }
            }
        } else {
            assert(cur =~= prev);
            assert forall|e: usize| e < bound && !p.contains(e) implies cur.contains(
                p.push(e),
            ) by {
                assert(e != d);
                assert(prev.contains(p.push(e)));
            }
        }
    }
}

proof fn lemma_extend_all(n: usize, ps: Seq<Seq<usize>>, k: nat)
    requires
        forall|i: int|
            0 <= i < ps.len() ==> (#[trigger] ps[i]).len() == k && perm_elems(n, ps[i]),
        ps.no_duplicates(),
    ensures
        extend_all(n, ps).no_duplicates(),
        forall|i: int|
            0 <= i < extend_all(n, ps).len() ==> {
                &&& (#[trigger] extend_all(n, ps)[i]).len() == k + 1
                &&& perm_elems(n, extend_all(n, ps)[i])
                &&& ps.contains(extend_all(n, ps)[i].drop_last())
            },
        forall|q: Seq<usize>|
            q.len() == k + 1 && perm_elems(n, q) && ps.contains(#[trigger] q.drop_last())
                ==> extend_all(n, ps).contains(q),
    decreases ps.len(),
{
    if ps.len() == 0 {
        assert forall|q: Seq<usize>|
            q.len() == k + 1 && perm_elems(n, q) && ps.contains(
                #[trigger] q.drop_last(),
            ) implies extend_all(n, ps).contains(q) by {
            assert(false);
        }
    } else {
        let front = ps.drop_last();
        let p = ps.last();
        assert(forall|i: int| 0 <= i < front.len() ==> front[i] == ps[i]);
        lemma_extend_all(n, front, k);
        lemma_exts(p, n);
        let left = extend_all(n, front);
        let right = exts(p, n);
        let all = extend_all(n, ps);
        assert(all == left + right);

        // Every entry of `right` is `p` extended by one fresh identifier.
        assert forall|i: int| 0 <= i < right.len() implies {
            &&& (#[trigger] right[i]).len() == k + 1
            &&& perm_elems(n, right[i])
            &&& right[i].drop_last() == p
        } by {
            let q = right[i];
            let d = q.last();
            assert(q.drop_last() == p);
            assert(q =~= p.push(d));
            assert forall|a: int, b: int| 0 <= a < b < q.len() implies q[a] != q[b] by {
                if b < q.len() - 1 {
                    assert(p[a] != p[b]);
                } else {
                    assert(q[b] == d);
                    if q[a] == d {
                        assert(p[a] == d);
                        assert(p.contains(d));
                    }
                }
            }
            assert forall|a: int| 0 <= a < q.len() implies (#[trigger] q[a]) < n by {
                if a < q.len() - 1 {
                    assert(p[a] < n);
                }
            }
        }

        // Soundness of the whole concatenation.
        assert forall|i: int| 0 <= i < all.len() implies {
            &&& (#[trigger] all[i]).len() == k + 1
            &&& perm_elems(n, all[i])
            &&& ps.contains(all[i].drop_last())
        } by {
            if i < left.len() {
                assert(all[i] == left[i]);
                let w = choose|w: int| 0 <= w < front.len() && front[w] == left[i].drop_last();
                assert(ps[w] == left[i].drop_last());
            } else {
                assert(all[i] == right[i - left.len()]);
                assert(ps[ps.len() - 1] == p);
            }
        }

        // Completeness.
        assert forall|q: Seq<usize>|
            q.len() == k + 1 && perm_elems(n, q) && ps.contains(
                #[trigger] q.drop_last(),
            ) implies all.contains(q) by {
            let w = choose|w: int| 0 <= w < ps.len() && ps[w] == q.drop_last();
            let d = q.last();
            assert(q[k as int] == d);
            assert(d < n);
            if w < ps.len() - 1 {
                assert(front[w] == q.drop_last());
                assert(front.contains(q.drop_last()));
                assert(left.contains(q));
                let v = choose|v: int| 0 <= v < left.len() && left[v] == q;
                assert(all[v] == q);
            } else {
                assert(p == q.drop_last());
                // the appended identifier is fresh in `p`
                if p.contains(d) {
                    let a = choose|a: int| 0 <= a < p.len() && p[a] == d;
                    assert(q[a] == p[a]);
                    assert(q[a] == q[k as int]);
                    assert(false);
                }
                assert(q =~= p.push(d));
                assert(right.contains(q));
                let v = choose|v: int| 0 <= v < right.len() && right[v] == q;
                assert(all[left.len() + v] == q);
            }
        }

        // No duplicates: within each half, and none across.
        assert forall|i: int, j: int| 0 <= i < j < all.len() implies all[i] != all[j] by {
            if j < left.len() {
                assert(left[i] != left[j]);
            } else if i >= left.len() {
                let a = i - left.len();
                let b = j - left.len();
                assert(right[a].last() < right[b].last());
                assert(all[i] == right[a] && all[j] == right[b]);
                if right[a] == right[b] {
                    assert(right[a].last() == right[b].last());
                }
            } else {
                // a survivor of the front extends an element of `front`,
                // never `p` itself, since `ps` has no duplicates
                assert(all[i] == left[i]);
                assert(all[j] == right[j - left.len()]);
                if all[i] == all[j] {
                    assert(left[i].drop_last() == p);
                    let w = choose|w: int|
                        0 <= w < front.len() && front[w] == left[i].drop_last();
                    assert(ps[w] == p);
                    assert(ps[ps.len() - 1] == p);
                }
            }
        }
    }
}

proof fn lemma_perms(n: usize, k: usize)
    ensures
        perms(n, k).no_duplicates(),
        forall|i: int|
            0 <= i < perms(n, k).len() ==> (#[trigger] perms(n, k)[i]).len() == k && perm_elems(
                n,
                perms(n, k)[i],
            ),
        forall|q: Seq<usize>|
            q.len() == k && #[trigger] perm_elems(n, q) ==> perms(n, k).contains(q),
    decreases k,
{
    if k == 0 {
        assert forall|q: Seq<usize>|
            q.len() == k && #[trigger] perm_elems(n, q) implies perms(n, k).contains(q) by {
            assert(q =~= Seq::<usize>::empty());
            assert(perms(n, k)[0] == q);
        }
    } else {
        let prev = (k - 1) as usize;
        lemma_perms(n, prev);
        lemma_extend_all(n, perms(n, prev), prev as nat);
        assert forall|q: Seq<usize>|
            q.len() == k && #[trigger] perm_elems(n, q) implies perms(n, k).contains(q) by {
            let r = q.drop_last();
            assert(r.len() == prev);
            assert(perm_elems(n, r)) by {
                assert(forall|i: int| 0 <= i < r.len() ==> r[i] == q[i]);
            }
            assert(perms(n, prev).contains(r));
        }
    }
}

proof fn lemma_table_upto(n: usize, k: usize)
    ensures
        table_upto(n, k).no_duplicates(),
        forall|i: int|
            0 <= i < table_upto(n, k).len() ==> {
                &&& 1 <= (#[trigger] table_upto(n, k)[i]).len() <= k
                &&& perm_elems(n, table_upto(n, k)[i])
            },
        forall|t: Seq<usize>|
            1 <= t.len() <= k && #[trigger] perm_elems(n, t) ==> table_upto(n, k).contains(t),
    decreases k,
{
    if k == 0 {
    } else {
        let prev = (k - 1) as usize;
        lemma_table_upto(n, prev);
        lemma_perms(n, k);
        let left = table_upto(n, prev);
        let right = perms(n, k);
        let all = table_upto(n, k);
        assert(all == left + right);

        assert forall|i: int| 0 <= i < all.len() implies {
            &&& 1 <= (#[trigger] all[i]).len() <= k
            &&& perm_elems(n, all[i])
        } by {
            if i < left.len() {
                assert(all[i] == left[i]);
            } else {
                assert(all[i] == right[i - left.len()]);
            }
        }

        assert forall|t: Seq<usize>|
            1 <= t.len() <= k && #[trigger] perm_elems(n, t) implies all.contains(t) by {
            if t.len() <= prev {
                assert(left.contains(t));
                let w = choose|w: int| 0 <= w < left.len() && left[w] == t;
                assert(all[w] == t);
            } else {
                assert(right.contains(t));
                let w = choose|w: int| 0 <= w < right.len() && right[w] == t;
                assert(all[left.len() + w] == t);
            }
        }

        // entries of the shorter blocks never repeat in the length-k block
        assert forall|i: int, j: int| 0 <= i < j < all.len() implies all[i] != all[j] by {
            if j < left.len() {
                assert(left[i] != left[j]);
            } else if i >= left.len() {
                assert(right[i - left.len()] != right[j - left.len()]);
            } else {
                assert(all[i] == left[i] && all[j] == right[j - left.len()]);
                assert(all[i].len() <= prev && all[j].len() == k);
            }
        }
    }
}

/// The tail of a term of two or more identifiers is again a term.
pub(crate) proof fn lemma_tail_is_term(n: usize, t: Seq<usize>)
    requires
        is_term(n, t),
        t.len() >= 2,
    ensures
        is_term(n, t.drop_first()),
{
    let tail = t.drop_first();
    assert(forall|i: int| 0 <= i < tail.len() ==> tail[i] == t[i + 1]);
}

/// Prepending a fresh identifier to a term that has room for it gives a
/// term; the tail of the longer term is the shorter one again.
pub(crate) proof fn lemma_cons_is_term(n: usize, v: usize, t: Seq<usize>)
    requires
        is_term(n, t),
        v < n,
        !t.contains(v),
        t.len() + 1 <= n,
    ensures
        is_term(n, seq![v] + t),
        (seq![v] + t).drop_first() =~= t,
        (seq![v] + t)[0] == v,
{
    let u = seq![v] + t;
    assert(forall|i: int| 1 <= i < u.len() ==> u[i] == t[i - 1]);
    assert forall|i: int, j: int| 0 <= i < j < u.len() implies u[i] != u[j] by {
        if i == 0 {
            if u[j] == v {
                assert(t[j - 1] == v);
                assert(t.contains(v));
            }
        }
    }
}

/// The term table is a bijective enumeration of the terms: every entry is a
/// term, every term has exactly one dense position, and the round trips
/// term → position → term and position → term → position are both the
/// identity.
pub proof fn lemma_term_table_bijection(n: usize)
    ensures
        term_table(n).no_duplicates(),
        forall|i: int|
            0 <= i < term_table(n).len() ==> is_term(n, #[trigger] term_table(n)[i]),
        forall|i: int|
            0 <= i < term_table(n).len() ==> term_index(n, #[trigger] term_table(n)[i]) == i,
        forall|t: Seq<usize>|
            #[trigger] is_term(n, t) ==> 0 <= term_index(n, t) < term_table(n).len()
                && term_table(n)[term_index(n, t)] == t,
{
    lemma_table_upto(n, n);
    let table = term_table(n);
    assert forall|t: Seq<usize>| #[trigger] is_term(n, t) implies 0 <= term_index(n, t)
        < table.len() && table[term_index(n, t)] == t by {
        assert(perm_elems(n, t));
        assert(table.contains(t));
    }
    assert forall|i: int| 0 <= i < table.len() implies term_index(n, #[trigger] table[i])
        == i by {
        assert(table.contains(table[i]));
        let w = term_index(n, table[i]);
        assert(0 <= w < table.len() && table[w] == table[i]);
        if w != i {
            assert(false);
        }
    }
}

/// The factorial of `n`: the product of 1 through `n`.
pub open spec fn fact(n: usize) -> nat
    decreases n,
{
    if n == 0 {
        1
    } else {
        (n as nat) * fact((n - 1) as usize)
    }
}

/// The falling factorial n·(n−1)·…·(n−k+1), that is n!/(n−k)!: how many
/// length-`k` permutations the universe of `n` identifiers admits.
pub open spec fn perm_count(n: usize, k: usize) -> nat
    recommends
        k <= n,
    decreases k,
{
    if k == 0 {
        1
    } else {
        perm_count(n, (k - 1) as usize) * ((n - k + 1) as nat)
    }
}

/// How many terms of length 1 through `k` the universe of `n` identifiers
/// admits.
pub open spec fn table_size(n: usize, k: usize) -> nat
    recommends
        k <= n,
    decreases k,
{
    if k == 0 {
        0
    } else {
        table_size(n, (k - 1) as usize) + perm_count(n, k)
    }
}

/// How many identifiers below `bound` the sequence `p` mentions.
spec fn count_below(p: Seq<usize>, bound: usize) -> nat
    decreases bound,
{
    if bound == 0 {
        0
    } else {
        count_below(p, (bound - 1) as usize) + (if p.contains((bound - 1) as usize) {
            1nat
        } else {
            0nat
        })
    }
}

proof fn lemma_exts_len(p: Seq<usize>, bound: usize)
    ensures
        exts(p, bound).len() + count_below(p, bound) == bound,
    decreases bound,
{
    if bound > 0 {
        lemma_exts_len(p, (bound - 1) as usize);
    }
}

proof fn lemma_count_below_push(p: Seq<usize>, x: usize, bound: usize)
    requires
        !p.contains(x),
    ensures
        count_below(p.push(x), bound) == count_below(p, bound) + (if x < bound {
            1nat
        } else {
            0nat
        }),
    decreases bound,
{
    if bound > 0 {
        lemma_count_below_push(p, x, (bound - 1) as usize);
        lemma_seq_contains_after_push(p, x, (bound - 1) as usize);
    }
}

proof fn lemma_count_below_empty(bound: usize)
    ensures
        count_below(Seq::<usize>::empty(), bound) == 0,
    decreases bound,
{
    if bound > 0 {
        lemma_count_below_empty((bound - 1) as usize);
    }
}

proof fn lemma_count_below_full(n: usize, p: Seq<usize>)
    requires
        perm_elems(n, p),
    ensures
        count_below(p, n) == p.len(),
    decreases p.len(),
{
    if p.len() == 0 {
        assert(p =~= Seq::<usize>::empty());
        lemma_count_below_empty(n);
    } else {
        let front = p.drop_last();
        let x = p.last();
        assert(forall|i: int| 0 <= i < front.len() ==> front[i] == p[i]);
        if front.contains(x) {
            let w = choose|w: int| 0 <= w < front.len() && front[w] == x;
            assert(p[w] == p[p.len() - 1]);
            assert(false);
        }
        lemma_count_below_full(n, front);
        lemma_count_below_push(front, x, n);
        assert(p =~= front.push(x));
        assert(x < n);
    }
}

proof fn lemma_extend_all_len(n: usize, ps: Seq<Seq<usize>>, k: usize)
    requires
        k <= n,
        forall|i: int|
            0 <= i < ps.len() ==> (#[trigger] ps[i]).len() == k && perm_elems(n, ps[i]),
    ensures
        extend_all(n, ps).len() == ps.len() * ((n - k) as nat),
    decreases ps.len(),
{
    if ps.len() == 0 {
    } else {
        let front = ps.drop_last();
        let p = ps.last();
        assert(forall|i: int| 0 <= i < front.len() ==> front[i] == ps[i]);
        lemma_extend_all_len(n, front, k);
        lemma_exts_len(p, n);
        lemma_count_below_full(n, p);
        assert(exts(p, n).len() == (n - k) as nat);
        assert(ps.len() * ((n - k) as nat) == front.len() * ((n - k) as nat) + ((n - k) as nat))
            by (nonlinear_arith)
            requires
                ps.len() == front.len() + 1,
        ;
    }
}

proof fn lemma_perms_count(n: usize, k: usize)
    requires
        k <= n,
    ensures
        perms(n, k).len() == perm_count(n, k),
    decreases k,
{
    if k > 0 {
        let prev = (k - 1) as usize;
        lemma_perms_count(n, prev);
        lemma_perms(n, prev);
        lemma_extend_all_len(n, perms(n, prev), prev);
    }
}

/// The term table for `n` identifiers holds exactly
/// `perm_count(n, 1) + … + perm_count(n, n)` entries, one length block at a
/// time.
pub proof fn lemma_term_table_size(n: usize)
    ensures
        term_table(n).len() == table_size(n, n),
{
    lemma_table_upto_size(n, n);
}

proof fn lemma_table_upto_size(n: usize, k: usize)
    requires
        k <= n,
    ensures
        table_upto(n, k).len() == table_size(n, k),
    decreases k,
{
    if k > 0 {
        lemma_table_upto_size(n, (k - 1) as usize);
        lemma_perms_count(n, k);
    }
}

proof fn lemma_fact_monotonic(a: usize, b: usize)
    requires
        a <= b,
    ensures
        fact(a) <= fact(b),
        fact(b) >= 1,
    decreases b,
{
    if b == 0 {
    } else if a == b {
        lemma_fact_monotonic(0, (b - 1) as usize);
        assert(fact(b) >= 1) by (nonlinear_arith)
            requires
                fact(b) == (b as nat) * fact((b - 1) as usize),
                b >= 1,
                fact((b - 1) as usize) >= 1,
        ;
    } else {
        lemma_fact_monotonic(a, (b - 1) as usize);
        assert(fact(b) >= fact((b - 1) as usize)) by (nonlinear_arith)
            requires
                fact(b) == (b as nat) * fact((b - 1) as usize),
                b >= 1,
                fact((b - 1) as usize) >= 1,
        ;
    }
}

proof fn lemma_fact_split(n: usize, k: usize)
    requires
        k <= n,
    ensures
        fact(n) == perm_count(n, k) * fact((n - k) as usize),
    decreases k,
{
    if k == 0 {
        assert(fact(n) == 1 * fact(n)) by (nonlinear_arith);
    } else {
        let prev = (k - 1) as usize;
        lemma_fact_split(n, prev);
        let m = (n - k + 1) as nat;
        assert(fact((n - prev) as usize) == m * fact((n - k) as usize));
        assert(perm_count(n, prev) * (m * fact((n - k) as usize)) == (perm_count(n, prev) * m)
            * fact((n - k) as usize)) by (nonlinear_arith);
    }
}

/// n!, computed as the running product of 1 through `n`.
pub fn factorial(n: usize) -> (product: usize)
    requires
        fact(n) <= usize::MAX,
    ensures
        product == fact(n),
{
    let mut product: usize = 1;
    let mut i: usize = 0;
    while i < n
        invariant
            i <= n,
            fact(n) <= usize::MAX,
            product == fact(i),
        decreases n - i,
    {
        i += 1;
        proof {
            lemma_fact_monotonic(i, n);
            assert(fact(i) == (i as nat) * fact((i - 1) as usize));
            assert((product as nat) * (i as nat) == fact(i)) by (nonlinear_arith)
                requires
                    product == fact((i - 1) as usize),
                    fact(i) == (i as nat) * fact((i - 1) as usize),
            ;
        }
        product = product * i;
    }
    product
}

/// n!/(n−k)!: how many length-`k` permutations `n` identifiers admit.
pub fn permutations(n: usize, k: usize) -> (count: usize)
    requires
        k <= n,
        fact(n) <= usize::MAX,
    ensures
        count == perm_count(n, k),
{
    proof {
        lemma_fact_monotonic((n - k) as usize, n);
        lemma_fact_split(n, k);
        vstd::arithmetic::div_mod::lemma_div_by_multiple(
            perm_count(n, k) as int,
            fact((n - k) as usize) as int,
        );
    }
    factorial(n) / factorial(n - k)
}

/// Whether `haystack` has `needle` among its elements.
fn vec_contains(haystack: &Vec<usize>, needle: usize) -> (found: bool)
    ensures
        found == haystack@.contains(needle),
{
    let mut i: usize = 0;
    while i < haystack.len()
        invariant
            i <= haystack@.len(),
            forall|j: int| 0 <= j < i ==> haystack@[j] != needle,
        decreases haystack@.len() - i,
    {
        if haystack[i] == needle {
            return true;
        }
        i += 1;
    }
    false
}

/// Whether two vectors hold the same identifiers in the same order.
fn vec_eq(a: &Vec<usize>, b: &Vec<usize>) -> (equal: bool)
    ensures
        equal == (a@ == b@),
{
    if a.len() != b.len() {
        return false;
    }
    let mut i: usize = 0;
    while i < a.len()
        invariant
            i <= a@.len(),
            a@.len() == b@.len(),
            forall|j: int| 0 <= j < i ==> a@[j] == b@[j],
        decreases a@.len() - i,
    {
        if a[i] != b[i] {
            return false;
        }
        i += 1;
    }
    proof {
        assert(a@ =~= b@);
    }
    true
}

/// The term table for universe size `variables`, as one vector per term,
/// dense position to term.
pub fn index_to_term(variables: usize) -> (table: Vec<Vec<usize>>)
    ensures
        views(table@) == term_table(variables),
{
    let mut table: Vec<Vec<usize>> = Vec::new();
    let mut current: Vec<Vec<usize>> = Vec::new();
    current.push(Vec::new());
    proof {
        assert(views(current@) =~= perms(variables, 0));
        assert(views(table@) =~= table_upto(variables, 0));
    }
    let mut k: usize = 0;
    while k < variables
        invariant
            k <= variables,
            views(current@) == perms(variables, k),
            views(table@) == table_upto(variables, k),
        decreases variables - k,
    {
        let ghost current_views: Seq<Seq<usize>> = views(current@);
        let mut next: Vec<Vec<usize>> = Vec::new();
        let mut i: usize = 0;
        while i < current.len()
            invariant
                i <= current@.len(),
                views(current@) == current_views,
                views(next@) == extend_all(variables, current_views.take(i as int)),
            decreases current@.len() - i,
        {
            let ghost p_view: Seq<usize> = current@[i as int]@;
            let ghost built: Seq<Seq<usize>> = views(next@);
            let mut d: usize = 0;
            while d < variables
                invariant
                    d <= variables,
                    i < current@.len(),
                    views(current@) == current_views,
                    p_view == current@[i as int]@,
                    views(next@) == built + exts(p_view, d),
                decreases variables - d,
            {
                if !vec_contains(&current[i], d) {
                    let mut q = clone_vec(&current[i]);
                    q.push(d);
                    proof {
                        assert(q@ == p_view.push(d));
                    }
                    let ghost before: Seq<Vec<usize>> = next@;
                    next.push(q);
                    proof {
                        assert(exts(p_view, (d + 1) as usize) == exts(p_view, d) + seq![
                            p_view.push(d),
                        ]);
                        let target = built + exts(p_view, (d + 1) as usize);
                        assert(views(before).len() == before.len());
                        assert(views(before) == built + exts(p_view, d));
                        assert(before.len() == built.len() + exts(p_view, d).len());
                        assert(views(next@).len() == next@.len());
                        assert(next@.len() == before.len() + 1);
                        assert(target.len() == built.len() + exts(p_view, d).len() + 1);
                        assert forall|m: int| 0 <= m < views(next@).len() implies views(
                            next@,
                        )[m] == target[m] by {
                            if m < before.len() {
                                assert(next@[m] == before[m]);
                                assert(views(next@)[m] == views(before)[m]);
                                assert(views(before)[m] == (built + exts(p_view, d))[m]);
                                assert(target[m] == (built + exts(p_view, d))[m]);
                            } else {
                                assert(views(next@)[m] == q@);
                                assert(target[m] == p_view.push(d));
                            }
                        }
                        assert(views(next@) =~= target);
                    }
                } else {
                    proof {
                        assert(exts(p_view, (d + 1) as usize) =~= exts(p_view, d));
                    }
                }
                d += 1;
            }
            i += 1;
            proof {
                assert(current_views.take(i as int).drop_last() =~= current_views.take(
                    i as int - 1,
                ));
                assert(current_views.take(i as int).last() == p_view);
                assert(extend_all(variables, current_views.take(i as int)) == extend_all(
                    variables,
                    current_views.take(i as int - 1),
                ) + exts(p_view, variables));
            }
        }
        proof {
            assert(current_views.take(current@.len() as int) =~= current_views);
            assert(views(next@) == perms(variables, (k + 1) as usize));
        }
        k += 1;
        current = next;
        let mut j: usize = 0;
        while j < current.len()
            invariant
                j <= current@.len(),
                1 <= k,
                views(current@) == perms(variables, k),
                views(table@) == table_upto(variables, (k - 1) as usize) + views(
                    current@,
                ).take(j as int),
            decreases current@.len() - j,
        {
            let entry = clone_vec(&current[j]);
            let ghost before: Seq<Vec<usize>> = table@;
            table.push(entry);
            j += 1;
            proof {
                let cur_views = views(current@);
                assert(cur_views.take(j as int) =~= cur_views.take(j as int - 1).push(
                    cur_views[j as int - 1],
                ));
                let upto = table_upto(variables, (k - 1) as usize);
                let target = upto + cur_views.take(j as int);
                assert(cur_views.len() == current@.len());
                assert(j <= cur_views.len());
                assert(views(before) == upto + cur_views.take(j as int - 1));
                assert(views(before).len() == before.len());
                assert(cur_views.take(j as int - 1).len() == j - 1);
                assert(cur_views.take(j as int).len() == j as int);
                assert(before.len() == upto.len() + j - 1);
                assert(views(table@).len() == table@.len());
                assert(table@.len() == before.len() + 1);
                assert(table@ == before.push(entry));
                assert forall|m: int| 0 <= m < views(table@).len() implies views(table@)[m]
                    == target[m] by {
                    if m < before.len() {
                        assert(table@[m] == before[m]);
                        assert(views(table@)[m] == views(before)[m]);
                        assert(views(before)[m] == (upto + cur_views.take(j as int - 1))[m]);
                        if m < upto.len() {
                            assert(target[m] == upto[m]);
                        } else {
                            assert(target[m] == cur_views.take(j as int)[m - upto.len()]);
                            assert(cur_views.take(j as int)[m - upto.len()] == cur_views[m
                                - upto.len()]);
                            assert((upto + cur_views.take(j as int - 1))[m] == cur_views.take(
                                j as int - 1,
                            )[m - upto.len()]);
                        }
                    } else {
                        assert(m == before.len());
                        assert(views(table@)[m] == table@[m]@);
                        assert(table@[m] == entry);
                        assert(m - upto.len() == j - 1);
                        assert(target[m] == cur_views.take(j as int)[j as int - 1]);
                        assert(cur_views.take(j as int)[j as int - 1] == cur_views[j as int - 1]);
                    }
                }
                assert(views(table@) =~= target);
            }
        }
        proof {
            assert(views(current@).take(current@.len() as int) =~= views(current@));
            assert(views(table@) == table_upto(variables, k));
        }
    }
    table
}

/// The dense position of `term` in `table`: the first entry with the same
/// contents.
pub fn term_to_index(table: &Vec<Vec<usize>>, term: &Vec<usize>) -> (index: usize)
    requires
        views(table@).contains(term@),
    ensures
        index < table@.len(),
        views(table@)[index as int] == term@,
{
    let mut i: usize = 0;
    while i < table.len()
        invariant
            i <= table@.len(),
            views(table@).contains(term@),
            forall|j: int| 0 <= j < i ==> views(table@)[j] != term@,
        decreases table@.len() - i,
    {
        if vec_eq(&table[i], term) {
            return i;
        }
        i += 1;
    }
    proof {
        let w = choose|w: int| 0 <= w < views(table@).len() && views(table@)[w] == term@;
        assert(false);
    }
    0
}

/// A copy of `source` with the same contents.
pub(crate) fn clone_vec(source: &Vec<usize>) -> (copy: Vec<usize>)
    ensures
        copy@ == source@,
{
    let mut copy: Vec<usize> = Vec::new();
    let mut i: usize = 0;
    while i < source.len()
        invariant
            i <= source@.len(),
            copy@ =~= source@.subrange(0, i as int),
        decreases source@.len() - i,
    {
        copy.push(source[i]);
        i += 1;
    }
    proof {
        assert(copy@ =~= source@);
    }
    copy
}

/// A copy of `source` whose entries hold the same contents.
pub(crate) fn clone_table(source: &Vec<Vec<usize>>) -> (copy: Vec<Vec<usize>>)
    ensures
        views(copy@) == views(source@),
{
    let mut copy: Vec<Vec<usize>> = Vec::new();
    let mut i: usize = 0;
    while i < source.len()
        invariant
            i <= source@.len(),
            copy@.len() == i,
            forall|j: int| 0 <= j < i ==> (#[trigger] copy@[j])@ == source@[j]@,
        decreases source@.len() - i,
    {
        let entry = clone_vec(&source[i]);
        copy.push(entry);
        i += 1;
    }
    proof {
        assert forall|j: int| 0 <= j < views(copy@).len() implies views(copy@)[j] == views(
            source@,
        )[j] by {
            assert(copy@[j]@ == source@[j]@);
        }
        assert(views(copy@) =~= views(source@));
    }
    copy
}

} // verus!
