use vstd::prelude::*;
use vstd::relations::{sorted_by, total_ordering};
use vstd::seq_lib::lemma_sorted_unique;

use crate::pairs::{is_ascending, pairs_of, scan_from, scan_positions, values_at};

verus! {

/// Position pair `p` lies inside the window `lo..=hi` of `s`, low before high, and its
/// elements sum to `t`.
pub open spec fn placed_in(s: Seq<i32>, t: int, lo: int, hi: int, p: (int, int)) -> bool {
    &&& 0 <= lo <= p.0 < p.1 <= hi < s.len()
    &&& s[p.0] + s[p.1] == t
}

/// Position pair `b` lies strictly inside position pair `a`.
pub open spec fn nested_in(a: (int, int), b: (int, int)) -> bool {
    a.0 < b.0 && b.1 < a.1
}

/// Every position pair that the scan emits between `lo` and `hi` lies inside that window,
/// low before high, on elements that sum to `t`; later pairs lie strictly inside earlier ones.
proof fn lemma_scan_shape(s: Seq<i32>, t: int, lo: int, hi: int)
    ensures
        forall|k: int|
            0 <= k < scan_from(s, t, lo, hi).len() ==> placed_in(
                s,
                t,
                lo,
                hi,
                #[trigger] scan_from(s, t, lo, hi)[k],
            ),
        forall|k1: int, k2: int|
            0 <= k1 < k2 < scan_from(s, t, lo, hi).len() ==> nested_in(
                #[trigger] scan_from(s, t, lo, hi)[k1],
                #[trigger] scan_from(s, t, lo, hi)[k2],
            ),
    decreases hi - lo + 1,
{
    let r = scan_from(s, t, lo, hi);
    if 0 <= lo < hi < s.len() {
        let q = s[lo] + s[hi];
        if q < t {
            lemma_scan_shape(s, t, lo + 1, hi);
            assert(r == scan_from(s, t, lo + 1, hi));
        } else if q > t {
            lemma_scan_shape(s, t, lo, hi - 1);
            assert(r == scan_from(s, t, lo, hi - 1));
        } else {
            lemma_scan_shape(s, t, lo + 1, hi - 1);
            let rest = scan_from(s, t, lo + 1, hi - 1);
            assert(r == seq![(lo, hi)] + rest);
            assert forall|k: int| 0 <= k < r.len() implies placed_in(s, t, lo, hi, r[k]) by {
                if k > 0 {
                    assert(r[k] == rest[k - 1]);
                    assert(placed_in(s, t, lo + 1, hi - 1, rest[k - 1]));
                }
            }
            assert forall|k1: int, k2: int| 0 <= k1 < k2 < r.len() implies nested_in(
                r[k1],
                r[k2],
            ) by {
                assert(r[k2] == rest[k2 - 1]);
                assert(placed_in(s, t, lo + 1, hi - 1, rest[k2 - 1]));
                if k1 > 0 {
                    assert(r[k1] == rest[k1 - 1]);
                    assert(nested_in(rest[k1 - 1], rest[k2 - 1]));
                }
            }
        }
    }
}

/// Some pair that the scan emits between `lo` and `hi` has the values of positions `i`, `j`.
proof fn lemma_scan_finds(s: Seq<i32>, t: int, lo: int, hi: int, i: int, j: int)
    requires
        is_ascending(s),
        0 <= lo <= i < j <= hi < s.len(),
        s[i] + s[j] == t,
    ensures
        exists|k: int|
            0 <= k < scan_from(s, t, lo, hi).len() && s[(#[trigger] scan_from(s, t, lo, hi)[k]).0]
                == s[i] && s[scan_from(s, t, lo, hi)[k].1] == s[j],
    decreases hi - lo + 1,
{
    let r = scan_from(s, t, lo, hi);
    let q = s[lo] + s[hi];
    assert(s[lo] <= s[i] && s[j] <= s[hi]);
    if q < t {
        assert(i != lo);
        lemma_scan_finds(s, t, lo + 1, hi, i, j);
        assert(r == scan_from(s, t, lo + 1, hi));
    } else if q > t {
        assert(j != hi);
        lemma_scan_finds(s, t, lo, hi - 1, i, j);
        assert(r == scan_from(s, t, lo, hi - 1));
    } else {
        let rest = scan_from(s, t, lo + 1, hi - 1);
        assert(r == seq![(lo, hi)] + rest);
        if i == lo || j == hi {
            assert(r[0] == (lo, hi));
        } else {
            lemma_scan_finds(s, t, lo + 1, hi - 1, i, j);
            let k = choose|k: int|
                0 <= k < rest.len() && s[(#[trigger] rest[k]).0] == s[i] && s[rest[k].1] == s[j];
            assert(r[k + 1] == rest[k]);
        }
    }
}

/// Every pair that the scan emits sums to the target.
pub proof fn lemma_pairs_sum_to_target(s: Seq<i32>, t: int)
    ensures
        forall|k: int|
            0 <= k < pairs_of(s, t).len() ==> (#[trigger] pairs_of(s, t)[k]).len() == 2
                && pairs_of(s, t)[k][0] + pairs_of(s, t)[k][1] == t,
{
    lemma_scan_shape(s, t, 0, s.len() - 1);
    assert forall|k: int| 0 <= k < pairs_of(s, t).len() implies (#[trigger] pairs_of(
        s,
        t,
    )[k]).len() == 2 && pairs_of(s, t)[k][0] + pairs_of(s, t)[k][1] == t by {
        assert(placed_in(s, t, 0, s.len() - 1, scan_positions(s, t)[k]));
    }
}

/// Two position pairs that share no position.
pub open spec fn apart(a: (int, int), b: (int, int)) -> bool {
    a.0 != b.0 && a.0 != b.1 && a.1 != b.0 && a.1 != b.1
}

/// Each pair the scan emits takes two distinct positions of `s`, and no position is used by
/// two emitted pairs.
pub proof fn lemma_positions_disjoint(s: Seq<i32>, t: int)
    ensures
        forall|k: int|
            0 <= k < scan_positions(s, t).len() ==> {
                let p = #[trigger] scan_positions(s, t)[k];
                0 <= p.0 < p.1 < s.len()
            },
        forall|k1: int, k2: int|
            0 <= k1 < scan_positions(s, t).len() && 0 <= k2 < scan_positions(s, t).len() && k1
                != k2 ==> apart(
                #[trigger] scan_positions(s, t)[k1],
                #[trigger] scan_positions(s, t)[k2],
            ),
{
    lemma_scan_shape(s, t, 0, s.len() - 1);
    let ps = scan_positions(s, t);
    assert forall|k: int| 0 <= k < ps.len() implies {
        let p = #[trigger] ps[k];
        0 <= p.0 < p.1 < s.len()
    } by {
        assert(placed_in(s, t, 0, s.len() - 1, ps[k]));
    }
    assert forall|k1: int, k2: int| 0 <= k1 < ps.len() && 0 <= k2 < ps.len() && k1 != k2 implies apart(
        #[trigger] ps[k1],
        #[trigger] ps[k2],
    ) by {
        assert(placed_in(s, t, 0, s.len() - 1, ps[k1]));
        assert(placed_in(s, t, 0, s.len() - 1, ps[k2]));
        if k1 < k2 {
            assert(nested_in(ps[k1], ps[k2]));
        } else {
            assert(nested_in(ps[k2], ps[k1]));
        }
    }
}

/// The rows of a brute-force enumeration: the values at every two positions `i < j` of `s`
/// that sum to `t`.
pub open spec fn enumerated_pairs(s: Seq<i32>, t: int) -> Set<Seq<i32>> {
    Set::new(
        |row: Seq<i32>|
            exists|i: int, j: int|
                0 <= i < j < s.len() && s[i] + s[j] == t && row == seq![s[i], s[j]],
    )
}

/// On an ascending sequence the scan finds every pair of values that a brute-force
/// enumeration of position pairs finds, and nothing else: as sets of rows, the two agree.
pub proof fn lemma_scan_matches_enumeration(s: Seq<i32>, t: int)
    requires
        is_ascending(s),
    ensures
        pairs_of(s, t).to_set() == enumerated_pairs(s, t),
{
    let ps = scan_positions(s, t);
    let rs = pairs_of(s, t);
    lemma_scan_shape(s, t, 0, s.len() - 1);
    assert forall|row: Seq<i32>| rs.to_set().contains(row) implies enumerated_pairs(
        s,
        t,
    ).contains(row) by {
        let k = choose|k: int| 0 <= k < rs.len() && rs[k] == row;
        assert(placed_in(s, t, 0, s.len() - 1, ps[k]));
        assert(row == seq![s[ps[k].0], s[ps[k].1]]);
    }
    assert forall|row: Seq<i32>| enumerated_pairs(s, t).contains(row) implies rs.to_set().contains(
        row,
    ) by {
        let (i, j) = choose|i: int, j: int|
            0 <= i < j < s.len() && s[i] + s[j] == t && row == seq![s[i], s[j]];
        lemma_scan_finds(s, t, 0, s.len() - 1, i, j);
        let k = choose|k: int|
            0 <= k < ps.len() && s[(#[trigger] ps[k]).0] == s[i] && s[ps[k].1] == s[j];
        assert(rs[k] =~= row);
    }
    assert(rs.to_set() =~= enumerated_pairs(s, t));
}

/// Any two ascending orderings of the same elements give the same pairs: which sort put
/// the input in order, stable or not, does not matter.
pub proof fn lemma_sort_choice_irrelevant(a: Seq<i32>, b: Seq<i32>, t: int)
    requires
        is_ascending(a),
        is_ascending(b),
        a.to_multiset() == b.to_multiset(),
    ensures
        pairs_of(a, t) == pairs_of(b, t),
{
    let leq = |x: i32, y: i32| x <= y;
    assert(total_ordering(leq));
    assert(sorted_by(a, leq));
    assert(sorted_by(b, leq));
    lemma_sorted_unique(a, b, leq);
}

/// An input of fewer than two elements has no pairs, whatever the target.
pub proof fn lemma_short_input_has_no_pairs(s: Seq<i32>, t: int)
    requires
        s.len() <= 1,
    ensures
        pairs_of(s, t) == Seq::<Seq<i32>>::empty(),
{
    assert(pairs_of(s, t) =~= Seq::<Seq<i32>>::empty());
}

} // verus!
