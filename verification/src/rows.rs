//! Boolean rows: every boolean assignment of a given length, enumerated in
//! a fixed order. The machine enumeration walks this list, one machine per
//! row.

use vstd::prelude::*;

verus! {

/// Two to the power `e`.
pub open spec fn two_pow(e: nat) -> nat
    decreases e,
{
    if e == 0 {
        1
    } else {
        2 * two_pow((e - 1) as nat)
    }
}

/// Each row of `rs` twice: once extended by `false`, once by `true`.
pub open spec fn double_rows(rs: Seq<Seq<bool>>) -> Seq<Seq<bool>>
    decreases rs.len(),
{
    if rs.len() == 0 {
        Seq::empty()
    } else {
        double_rows(rs.drop_last()) + seq![rs.last().push(false), rs.last().push(true)]
    }
}

/// All boolean rows of length `len`, in a fixed order: the first position
/// varies slowest.
pub open spec fn bool_rows(len: nat) -> Seq<Seq<bool>>
    decreases len,
{
    if len == 0 {
        seq![Seq::<bool>::empty()]
    } else {
        double_rows(bool_rows((len - 1) as nat))
    }
}

/// The element-wise views of a sequence of boolean vectors.
pub open spec fn row_views(s: Seq<Vec<bool>>) -> Seq<Seq<bool>> {
    Seq::new(s.len(), |i: int| s[i]@)
}

proof fn lemma_double_rows(rs: Seq<Seq<bool>>, k: nat)
    requires
        forall|i: int| 0 <= i < rs.len() ==> (#[trigger] rs[i]).len() == k,
        rs.no_duplicates(),
    ensures
        double_rows(rs).len() == 2 * rs.len(),
        forall|i: int|
            0 <= i < double_rows(rs).len() ==> (#[trigger] double_rows(rs)[i]).len() == k + 1
                && rs.contains(double_rows(rs)[i].drop_last()),
        forall|q: Seq<bool>|
            q.len() == k + 1 && rs.contains(#[trigger] q.drop_last()) ==> double_rows(
                rs,
            ).contains(q),
        double_rows(rs).no_duplicates(),
    decreases rs.len(),
{
    if rs.len() == 0 {
        assert forall|q: Seq<bool>|
            q.len() == k + 1 && rs.contains(#[trigger] q.drop_last()) implies double_rows(
            rs,
        ).contains(q) by {
            assert(false);
        }
    } else {
        let front = rs.drop_last();
        let r = rs.last();
        assert(forall|i: int| 0 <= i < front.len() ==> front[i] == rs[i]);
        lemma_double_rows(front, k);
        let left = double_rows(front);
        let pair = seq![r.push(false), r.push(true)];
        let all = double_rows(rs);
        assert(all == left + pair);
        assert(r.push(false).drop_last() =~= r);
        assert(r.push(true).drop_last() =~= r);

        assert forall|i: int| 0 <= i < all.len() implies (#[trigger] all[i]).len() == k + 1
            && rs.contains(all[i].drop_last()) by {
            if i < left.len() {
                assert(all[i] == left[i]);
                let w = choose|w: int| 0 <= w < front.len() && front[w] == left[i].drop_last();
                assert(rs[w] == left[i].drop_last());
            } else {
                assert(all[i] == pair[i - left.len()]);
                assert(rs[rs.len() - 1] == r);
                assert(all[i].drop_last() =~= r);
            }
        }

        assert forall|q: Seq<bool>|
            q.len() == k + 1 && rs.contains(#[trigger] q.drop_last()) implies all.contains(q) by {
            let w = choose|w: int| 0 <= w < rs.len() && rs[w] == q.drop_last();
            if w < rs.len() - 1 {
                assert(front[w] == q.drop_last());
                assert(front.contains(q.drop_last()));
                assert(left.contains(q));
                let v = choose|v: int| 0 <= v < left.len() && left[v] == q;
                assert(all[v] == q);
            } else {
                assert(r == q.drop_last());
                if q.last() {
                    assert(q =~= r.push(true));
                    assert(all[left.len() as int + 1] == q);
                } else {
                    assert(q =~= r.push(false));
                    assert(all[left.len() as int] == q);
                }
            }
        }

        assert forall|i: int, j: int| 0 <= i < j < all.len() implies all[i] != all[j] by {
            if j < left.len() {
                assert(left[i] != left[j]);
            } else if i >= left.len() {
                assert(all[i] == pair[i - left.len()] && all[j] == pair[j - left.len()]);
                assert(pair[0].last() != pair[1].last());
            } else {
                assert(all[i] == left[i]);
                assert(all[j] == pair[j - left.len()]);
                if all[i] == all[j] {
                    assert(left[i].drop_last() =~= r);
                    let w = choose|w: int|
                        0 <= w < front.len() && front[w] == left[i].drop_last();
                    assert(rs[w] == r);
                    assert(rs[rs.len() - 1] == r);
                }
            }
        }
    }
}

/// The boolean-row list of a given length enumerates every assignment of
/// that length exactly once: it has two-to-the-length entries, no two of
/// them equal, and every assignment of that length is among them.
pub proof fn lemma_bool_rows_enumeration(len: nat)
    ensures
        bool_rows(len).len() == two_pow(len),
        forall|i: int| 0 <= i < bool_rows(len).len() ==> (#[trigger] bool_rows(len)[i]).len() == len,
        bool_rows(len).no_duplicates(),
        forall|q: Seq<bool>| q.len() == len ==> bool_rows(len).contains(q),
    decreases len,
{
    if len == 0 {
        assert forall|q: Seq<bool>| q.len() == len implies bool_rows(len).contains(q) by {
            assert(q =~= Seq::<bool>::empty());
            assert(bool_rows(len)[0] == q);
        }
    } else {
        let prev = (len - 1) as nat;
        lemma_bool_rows_enumeration(prev);
        lemma_double_rows(bool_rows(prev), prev);
        assert forall|q: Seq<bool>| q.len() == len implies bool_rows(len).contains(q) by {
            let r = q.drop_last();
            assert(r.len() == prev);
            assert(bool_rows(prev).contains(r));
        }
    }
}

/// A copy of `source` with the same contents.
pub(crate) fn clone_bools(source: &Vec<bool>) -> (copy: Vec<bool>)
    ensures
        copy@ == source@,
{
    let mut copy: Vec<bool> = Vec::new();
    let mut i: usize = 0;
    while i < source.len()
        invariant
            i <= source@.len(),
            copy@ =~= source@.subrange(0, i as int),
        decreases source@.len() - i,
    {
        copy.push(source[i]);
        i += 1;
    }
    proof {
        assert(copy@ =~= source@);
    }
    copy
}

} // verus!
