//! Signal ranking: keep the instruments whose most recent return is itself a
//! freshly detected jump, order them by signal strength, and take the top N.
use vstd::prelude::*;

use crate::arith::lemma_sum_sq_all_zero;
use crate::arith::mag;
use crate::data::Data;
use crate::jumps::find_jump;
use crate::jumps::find_jump_spec;
use crate::jumps::lemma_find_jump_spec_props;
use crate::math::ints;
use crate::math::rets_ok;
use crate::math::spec_jump_detected;
use crate::math::spec_rv;
use crate::math::spec_zscore;
use crate::math::zscore;
use crate::math::MAX_RET;
use crate::math::MAX_SERIES_LEN;
use crate::math::Z_CRIT_MICRO;

verus! {

/// One instrument's jump signal: the reference price (1e-6 scale), the signed
/// z-score (1e-6 scale), and the most recent log return (1e-9 scale).
pub struct Evaluation {
    pub ticker: String,
    pub price: u64,
    pub z_score: i64,
    pub last_ret: i64,
}

/// A series is selected when the statistics are defined on it, a jump is
/// detected, and the located jump is the most recent observation — a live
/// event, not a stale one.
pub open spec fn selected(d: Data) -> bool {
    let s = ints(d.log_returns@);
    &&& rets_ok(s)
    &&& s.len() >= 1
    &&& spec_jump_detected(s)
    &&& find_jump_spec(s).0 == s.len() - 1
}

/// The evaluation `e` is the one the series `d` yields.
pub open spec fn is_eval_of(e: Evaluation, d: Data) -> bool {
    let s = ints(d.log_returns@);
    &&& e.ticker@ == d.ticker@
    &&& e.price == d.current_price
    &&& spec_zscore(s) == Option::Some(e.z_score as int)
    &&& s.len() >= 1 && e.last_ret as int == s.last()
}

/// An evaluation drawn from some selected series of the batch.
pub open spec fn eval_from_selected(e: Evaluation, ds: Seq<Data>) -> bool {
    exists|k: int| 0 <= k < ds.len() && selected(#[trigger] ds[k]) && is_eval_of(e, ds[k])
}

/// How many series of the batch are selected.
pub open spec fn count_selected(ds: Seq<Data>) -> int
    decreases ds.len(),
{
    if ds.len() == 0 {
        0
    } else {
        count_selected(ds.drop_last()) + if selected(ds.last()) {
            1int
        } else {
            0int
        }
    }
}

/// A selected series' most recent return is never zero: selection implies a
/// positive realized variance, so some return is nonzero, and the jump at the
/// last index carries the largest magnitude of all.
pub proof fn lemma_selected_last_return_nonzero(d: Data)
    requires
        selected(d),
    ensures
        ints(d.log_returns@).last() != 0,
{
    let s = ints(d.log_returns@);
    if s.last() == 0 {
        lemma_find_jump_spec_props(s);
        assert(find_jump_spec(s).1 == s[s.len() - 1]);
        assert(mag(find_jump_spec(s).1) == 0);
        assert(forall|k: int| 0 <= k < s.len() ==> s[k] == 0) by {
            assert(forall|k: int| 0 <= k < s.len() ==> mag(s[k]) <= 0);
        }
        lemma_sum_sq_all_zero(s);
        assert(spec_rv(s) == 0);
        assert(!spec_jump_detected(s));
    }
}

/// Whether the statistics accept the series: length and magnitudes within the
/// representable range.
fn series_stat_ok(y: &Vec<i64>) -> (r: bool)
    ensures
        r == rets_ok(ints(y@)),
{
    let ghost s = ints(y@);
    if y.len() > MAX_SERIES_LEN {
        return false;
    }
    let mut i: usize = 0;
    while i < y.len()
        invariant
            s == ints(y@),
            i <= y.len(),
            y@.len() == s.len(),
            s.len() <= MAX_SERIES_LEN,
            forall|k: int| 0 <= k < i ==> mag(s[k]) <= MAX_RET as int,
        decreases y.len() - i,
    {
        let v = y[i];
        proof {
            assert(s[i as int] == y@[i as int] as int);
        }
        if v > MAX_RET || v < -MAX_RET {
            return false;
        }
        i = i + 1;
    }
    true
}

/// Rank the batch: keep each series whose statistics are defined, whose
/// z-score clears the fixed confidence level, and whose largest-magnitude
/// return is the most recent one; order the survivors by non-increasing
/// |z-score| (ties keep their first-seen order) and return at most `n`.
pub fn choose_stocks(data: &Vec<Data>, n: usize) -> (r: Vec<Evaluation>)
    ensures
        forall|i: int| 0 <= i < r@.len() ==> eval_from_selected(#[trigger] r@[i], data@),
        forall|i: int, j: int|
            0 <= i <= j < r@.len() ==> mag(r@[i].z_score as int) >= mag(r@[j].z_score as int),
        r@.len() == if count_selected(data@) <= n as int {
            count_selected(data@)
        } else {
            n as int
        },
        forall|i: int| 0 <= i < r@.len() ==> (#[trigger] r@[i].last_ret) != 0,
{
    let ghost ds = data@;
    let mut evals: Vec<Evaluation> = Vec::new();
    let mut i: usize = 0;
    while i < data.len()
        invariant
            ds == data@,
            i <= ds.len(),
            evals@.len() == count_selected(ds.take(i as int)),
            forall|t: int| 0 <= t < evals@.len() ==> eval_from_selected(#[trigger] evals@[t], ds),
        decreases ds.len() - i,
    {
        let ghost s = ints(ds[i as int].log_returns@);
        proof {
            assert(ds.take(i + 1).drop_last() =~= ds.take(i as int));
            assert(ds.take(i + 1).last() == ds[i as int]);
        }
        if series_stat_ok(&data[i].log_returns) {
            match zscore(&data[i].log_returns) {
                None => {
                    proof {
                        assert(!spec_jump_detected(s));
                        assert(!selected(ds[i as int]));
                    }
                },
                Some(z) => {
                    let zm = if z < 0 {
                        -z
                    } else {
                        z
                    };
                    if zm > Z_CRIT_MICRO {
                        let (idx, _jv) = find_jump(&data[i].log_returns);
                        if idx == data[i].log_returns.len() - 1 {
                            let last = data[i].log_returns[data[i].log_returns.len() - 1];
                            let e = Evaluation {
                                ticker: data[i].ticker.clone(),
                                price: data[i].current_price,
                                z_score: z,
                                last_ret: last,
                            };
                            proof {
                                assert(selected(ds[i as int]));
                                assert(last as int == s.last());
                                assert(is_eval_of(e, ds[i as int]));
                                assert(eval_from_selected(e, ds));
                            }
                            evals.push(e);
                        } else {
                            proof {
                                assert(!selected(ds[i as int]));
                            }
                        }
                    } else {
                        proof {
                            assert(!spec_jump_detected(s));
                            assert(!selected(ds[i as int]));
                        }
                    }
                },
            }
        } else {
            proof {
                assert(!selected(ds[i as int]));
            }
        }
        i = i + 1;
    }
    proof {
        assert(ds.take(ds.len() as int) =~= ds);
    }
    let ghost total = evals@.len() as int;

    // order by non-increasing |z-score|: repeatedly extract a maximum
    let mut out: Vec<Evaluation> = Vec::new();
    while evals.len() > 0
        invariant
            out@.len() + evals@.len() == total,
            forall|t: int| 0 <= t < out@.len() ==> eval_from_selected(#[trigger] out@[t], ds),
            forall|t: int| 0 <= t < evals@.len() ==> eval_from_selected(#[trigger] evals@[t], ds),
            forall|a: int, b: int|
                0 <= a <= b < out@.len() ==> mag(out@[a].z_score as int) >= mag(
                    out@[b].z_score as int,
                ),
            forall|a: int, b: int|
                0 <= a < out@.len() && 0 <= b < evals@.len() ==> mag(out@[a].z_score as int) >= mag(
                    evals@[b].z_score as int,
                ),
        decreases evals@.len(),
    {
        let mut mi: usize = 0;
        let mut t: usize = 1;
        while t < evals.len()
            invariant
                1 <= t,
                t <= evals@.len(),
                mi < t,
                forall|k: int| 0 <= k < t ==> mag(evals@[k].z_score as int) <= mag(
                    evals@[mi as int].z_score as int,
                ),
            decreases evals@.len() - t,
        {
            let a = evals[t].z_score;
            let b = evals[mi].z_score;
            let ma = if a < 0 {
                -(a as i128)
            } else {
                a as i128
            };
            let mb = if b < 0 {
                -(b as i128)
            } else {
                b as i128
            };
            if ma > mb {
                mi = t;
            }
            t = t + 1;
        }
        let e = evals.remove(mi);
        proof {
            let prev = out@;
            assert(forall|b: int|
                0 <= b < evals@.len() ==> mag(evals@[b].z_score as int) <= mag(e.z_score as int));
        }
        out.push(e);
    }
    if out.len() > n {
        out.truncate(n);
    }
    proof {
        assert forall|i: int| 0 <= i < out@.len() implies (#[trigger] out@[i].last_ret) != 0 by {
            let e = out@[i];
            assert(eval_from_selected(e, ds));
            let k = choose|k: int| 0 <= k < ds.len() && selected(#[trigger] ds[k]) && is_eval_of(
                e,
                ds[k],
            );
            lemma_selected_last_return_nonzero(ds[k]);
        }
    }
    out
}

} // verus!
