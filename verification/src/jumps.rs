//! Locating the largest-magnitude return in a series and thresholding the
//! jump z-score against the fixed confidence level.
use vstd::prelude::*;

use crate::arith::mag;
use crate::math::ints;
use crate::math::rets_ok;
use crate::math::spec_jump_detected;
use crate::math::zscore;
use crate::math::Z_CRIT_MICRO;

verus! {

/// The index and value the magnitude scan keeps: walking left to right, the
/// current best is replaced whenever a new value's magnitude is at least as
/// large, so among equal magnitudes the latest index wins.
pub open spec fn find_jump_spec(s: Seq<int>) -> (int, int)
    decreases s.len(),
{
    if s.len() <= 1 {
        (0, if s.len() == 0 { 0int } else { s[0] })
    } else {
        let prev = find_jump_spec(s.drop_last());
        if mag(prev.1) > mag(s.last()) {
            prev
        } else {
            (s.len() - 1, s.last())
        }
    }
}

/// The scan returns an index of the series, holding the value there; no entry
/// has a larger magnitude, and every entry past the returned index has a
/// strictly smaller one.
pub proof fn lemma_find_jump_spec_props(s: Seq<int>)
    requires
        s.len() >= 1,
    ensures
        0 <= find_jump_spec(s).0 < s.len(),
        find_jump_spec(s).1 == s[find_jump_spec(s).0],
        forall|k: int| 0 <= k < s.len() ==> mag(s[k]) <= mag(find_jump_spec(s).1),
        forall|k: int|
            find_jump_spec(s).0 < k < s.len() ==> mag(s[k]) < mag(find_jump_spec(s).1),
    decreases s.len(),
{
    if s.len() == 1 {
        assert(s[0] == s.last());
    } else {
        let t = s.drop_last();
        lemma_find_jump_spec_props(t);
        assert(forall|k: int| 0 <= k < t.len() ==> t[k] == s[k]);
        let prev = find_jump_spec(t);
        if mag(prev.1) > mag(s.last()) {
            assert(find_jump_spec(s) == prev);
        } else {
            assert(find_jump_spec(s) == (s.len() - 1, s.last()));
            assert(forall|k: int|
                0 <= k < s.len() - 1 ==> #[trigger] mag(s[k]) <= mag(prev.1) <= mag(s.last()));
        }
    }
}

/// The tie-break law: when two entries at positions `i < j` share the largest
/// magnitude and every other entry is strictly smaller, the scan settles on
/// the later position `j`.
pub proof fn lemma_find_jump_tie_break(s: Seq<int>, i: int, j: int)
    requires
        0 <= i < j < s.len(),
        mag(s[i]) == mag(s[j]),
        forall|k: int| 0 <= k < s.len() && k != i && k != j ==> mag(s[k]) < mag(s[i]),
    ensures
        find_jump_spec(s).0 == j,
{
    lemma_find_jump_spec_props(s);
    let r = find_jump_spec(s);
    if r.0 < j {
        assert(mag(s[j]) < mag(r.1));
        assert(mag(s[j]) <= mag(s[r.0]));
        if r.0 != i {
            assert(mag(s[r.0]) < mag(s[i]));
        }
        assert(false);
    } else if r.0 > j {
        assert(mag(s[r.0]) < mag(s[i]));
        assert(mag(s[i]) <= mag(r.1));
        assert(false);
    }
}

/// The index and signed value of the return with the largest magnitude; on
/// exactly equal magnitudes the later index wins.
pub fn find_jump(y: &Vec<i64>) -> (r: (usize, i64))
    requires
        y@.len() >= 1,
    ensures
        r.0 < y@.len(),
        r.1 == y@[r.0 as int],
        (r.0 as int, r.1 as int) == find_jump_spec(ints(y@)),
{
    let ghost p = ints(y@);
    let mut idx: usize = 0;
    let mut best: i64 = y[0];
    let mut i: usize = 1;
    proof {
        assert(p.take(1int).len() == 1);
        assert(p.take(1int)[0] == p[0]);
    }
    while i < y.len()
        invariant
            p == ints(y@),
            y@.len() == p.len(),
            1 <= i,
            i <= y.len(),
            idx < i,
            best == y@[idx as int],
            (idx as int, best as int) == find_jump_spec(p.take(i as int)),
        decreases y.len() - i,
    {
        let v = y[i];
        let mb = if best < 0 {
            -(best as i128)
        } else {
            best as i128
        };
        let mv = if v < 0 {
            -(v as i128)
        } else {
            v as i128
        };
        proof {
            assert(p[i as int] == y@[i as int] as int);
            assert(mb == mag(best as int));
            assert(mv == mag(p[i as int]));
            assert(p.take(i + 1).drop_last() =~= p.take(i as int));
            assert(p.take(i + 1).last() == p[i as int]);
            assert(p.take(i + 1).len() == i + 1);
        }
        if mb > mv {
        } else {
            idx = i;
            best = v;
        }
        i = i + 1;
    }
    proof {
        if p.len() >= 1 {
            assert(p.take(p.len() as int) =~= p);
        }
    }
    (idx, best)
}

/// Whether the series carries a jump at the fixed 99.9% two-sided confidence
/// level: the z-score is defined and its magnitude exceeds `Z_CRIT_MICRO`. A
/// degenerate series (too short, or with an undefined statistic) is never a
/// signal.
pub fn jump_detected(y: &Vec<i64>) -> (r: bool)
    requires
        rets_ok(ints(y@)),
    ensures
        r == spec_jump_detected(ints(y@)),
{
    match zscore(y) {
        None => false,
        Some(z) => {
            let m = if z < 0 {
                -z
            } else {
                z
            };
            m > Z_CRIT_MICRO
        },
    }
}

} // verus!
