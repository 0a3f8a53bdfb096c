use vstd::prelude::*;

use crate::laws::lemma_pairs_sum_to_target;

verus! {

/// The sequence is in ascending numeric order (duplicates allowed).
pub open spec fn is_ascending(s: Seq<i32>) -> bool {
    forall|i: int, j: int| 0 <= i <= j < s.len() ==> s[i] <= s[j]
}

/// Relies on `slice::sort`: the elements come out in ascending order, each one kept.
#[verifier::external_body]
fn sort_ascending(v: &mut Vec<i32>)
    ensures
        is_ascending(final(v)@),
        final(v)@.to_multiset() == old(v)@.to_multiset(),
{
    v.sort();
}

/// The position pairs that the two-pointer scan emits while its low index is `lo` and its
/// high index is `hi`, in the order it finds them.
pub open spec fn scan_from(s: Seq<i32>, t: int, lo: int, hi: int) -> Seq<(int, int)>
    decreases hi - lo + 1,
{
    if 0 <= lo < hi < s.len() {
        let q = s[lo] + s[hi];
        if q < t {
            scan_from(s, t, lo + 1, hi)
        } else if q > t {
            scan_from(s, t, lo, hi - 1)
        } else {
            seq![(lo, hi)] + scan_from(s, t, lo + 1, hi - 1)
        }
    } else {
        Seq::empty()
    }
}

/// The position pairs of a full scan of `s`, the pointers starting at both ends.
pub open spec fn scan_positions(s: Seq<i32>, t: int) -> Seq<(int, int)> {
    scan_from(s, t, 0, s.len() - 1)
}

/// The values of `s` at each position pair, as two-element rows.
pub open spec fn values_at(s: Seq<i32>, ps: Seq<(int, int)>) -> Seq<Seq<i32>> {
    ps.map_values(|p: (int, int)| seq![s[p.0], s[p.1]])
}

/// The rows that a scan of the sorted sequence `s` for target `t` emits.
pub open spec fn pairs_of(s: Seq<i32>, t: int) -> Seq<Seq<i32>> {
    values_at(s, scan_positions(s, t))
}

/// The contents of each row of a result.
pub open spec fn rows(r: Seq<Vec<i32>>) -> Seq<Seq<i32>> {
    r.map_values(|v: Vec<i32>| v@)
}

/// Sorts `x` in place, ascending, then finds the pairs of its elements that sum to `t`
/// with a two-pointer scan: the low pointer advances while the sum is too small, the high
/// pointer retreats while it is too large, and on a match both move, so that no position
/// is used twice. Sums are taken without overflow.
pub fn two_number_sum(x: &mut Vec<i32>, t: i32) -> (r: Vec<Vec<i32>>)
    ensures
        is_ascending(final(x)@),
        final(x)@.to_multiset() == old(x)@.to_multiset(),
        rows(r@) == pairs_of(final(x)@, t as int),
        forall|k: int|
            0 <= k < r.len() ==> (#[trigger] r[k])@.len() == 2 && r[k]@[0] + r[k]@[1] == t,
{
    sort_ascending(x);
    let ghost s = x@;
    let mut res: Vec<Vec<i32>> = Vec::new();
    if x.len() == 0 {
        assert(rows(res@) =~= pairs_of(s, t as int));
        assert(res@.len() == 0);
        return res;
    }
    let mut l: usize = 0;
    let mut h: usize = x.len() - 1;
    let ghost mut done: Seq<(int, int)> = Seq::empty();
    while l < h
        invariant
            x@ == s,
            h < s.len(),
            l <= h + 1,
            scan_positions(s, t as int) == done + scan_from(s, t as int, l as int, h as int),
            rows(res@) == values_at(s, done),
        decreases h + 1 - l,
    {
        let q: i64 = x[l] as i64 + x[h] as i64;
        if q < t as i64 {
            l = l + 1;
        } else if q > t as i64 {
            h = h - 1;
        } else {
            let ghost prev_done = done;
            proof {
                assert(done + scan_from(s, t as int, l as int, h as int) =~= done.push(
                    (l as int, h as int),
                ) + scan_from(s, t as int, l + 1, h - 1));
                done = done.push((l as int, h as int));
            }
            let row: Vec<i32> = vec![x[l], x[h]];
            assert(row@ =~= seq![s[l as int], s[h as int]]);
            let ghost prev_res = res@;
            res.push(row);
            assert(rows(res@) =~= rows(prev_res).push(row@));
            assert(values_at(s, done) =~= values_at(s, prev_done).push(row@));
            l = l + 1;
            h = h - 1;
        }
    }
    assert(done + scan_from(s, t as int, l as int, h as int) =~= done);
    proof {
        lemma_pairs_sum_to_target(s, t as int);
        assert forall|k: int| 0 <= k < res.len() implies (#[trigger] res[k])@.len() == 2
            && res[k]@[0] + res[k]@[1] == t by {
            assert(rows(res@)[k] == res[k]@);
            assert(rows(res@)[k] == pairs_of(s, t as int)[k]);
        }
    }
    res
}

} // verus!
