//! Position sizing: turn the ranked evaluations into dollar-weighted,
//! direction-aware trade instructions with limit-price guards and validity
//! windows, plus a scheduled flattening instruction per instrument.
use vstd::prelude::*;

use crate::arith::mag;
use crate::data::MAX_PRICE;
use crate::signals::Evaluation;
use vstd::arithmetic::div_mod::lemma_div_by_multiple;
use vstd::arithmetic::div_mod::lemma_div_is_ordered;
use vstd::arithmetic::div_mod::lemma_div_multiples_vanish_fancy;
use vstd::arithmetic::div_mod::lemma_div_pos_is_pos;
use vstd::arithmetic::div_mod::lemma_fundamental_div_mod;
use vstd::arithmetic::div_mod::lemma_mod_bound;
use vstd::arithmetic::mul::lemma_mul_inequality;
use vstd::string::StringExecFns;

verus! {

/// The size of an instruction: a signed notional in 1e-6 currency units, or
/// zero (a flattening instruction).
#[derive(Clone, Copy, Debug, PartialEq, Eq, Structural)]
pub enum Amount {
    Dollars(i128),
    Zero,
}

/// An immutable trade instruction. `after`/`before` bound the validity window
/// in seconds after the Unix epoch; prices carry the 1e-6 scale.
pub struct PositionIntent {
    pub strategy: String,
    pub ticker: String,
    pub amount: Amount,
    pub limit_price: Option<u64>,
    pub decision_price: Option<u64>,
    pub after: Option<i64>,
    pub before: Option<i64>,
}

/// Sum of the z-score magnitudes of the evaluations.
pub open spec fn sum_abs_z(es: Seq<Evaluation>) -> int
    decreases es.len(),
{
    if es.len() == 0 {
        0
    } else {
        sum_abs_z(es.drop_last()) + mag(es.last().z_score as int)
    }
}

/// The floor-weighted notional one evaluation receives out of the cash
/// budget: cash * |z| / sum of |z|.
pub open spec fn spec_notional(e: Evaluation, cash: u64, sumz: int) -> int {
    cash * mag(e.z_score as int) / sumz
}

/// The limit price guarding the opening instruction: 0.5% below the reference
/// price when selling into an upward jump, 0.5% above it when buying a
/// downward one.
pub open spec fn spec_limit_price(e: Evaluation) -> int {
    if e.last_ret > 0 {
        e.price * 995 / 1000
    } else {
        e.price * 1005 / 1000
    }
}

/// The sum of the notionals the evaluations receive.
pub open spec fn sum_notional(es: Seq<Evaluation>, cash: u64, sumz: int) -> int
    decreases es.len(),
{
    if es.len() == 0 {
        0
    } else {
        sum_notional(es.drop_last(), cash, sumz) + spec_notional(es.last(), cash, sumz)
    }
}

/// `p` is the opening instruction for `e`: mean-reverting direction (short an
/// upward jump, long a downward one), limit-guarded, effective immediately
/// and expiring 30 minutes after `now`.
pub open spec fn is_open_intent(
    p: PositionIntent,
    e: Evaluation,
    cash: u64,
    sumz: int,
    now: i64,
) -> bool {
    &&& p.strategy@ == "jump-diffusion"@
    &&& p.ticker@ == e.ticker@
    &&& (p.amount matches Amount::Dollars(d) && d as int == if e.last_ret > 0 {
        -spec_notional(e, cash, sumz)
    } else {
        spec_notional(e, cash, sumz)
    })
    &&& (p.limit_price matches Some(l) && l as int == spec_limit_price(e))
    &&& p.decision_price == Some(e.price)
    &&& p.after is None
    &&& (p.before matches Some(b) && b as int == now + 1800)
}

/// `p` is the flattening instruction for `e`: zero size, valid only from the
/// fixed same-day cutoff onward, with no expiry.
pub open spec fn is_flatten_intent(p: PositionIntent, e: Evaluation, close_after: i64) -> bool {
    &&& p.strategy@ == "jump-diffusion"@
    &&& p.ticker@ == e.ticker@
    &&& p.amount == Amount::Zero
    &&& p.limit_price is None
    &&& p.decision_price is None
    &&& p.after == Some(close_after)
    &&& p.before is None
}

/// Every evaluation's z-score magnitude is counted in the sum, and the sum of
/// a batch of nonzero z-scores is positive.
pub proof fn lemma_sum_abs_z_bounds(es: Seq<Evaluation>)
    ensures
        sum_abs_z(es) >= 0,
        forall|k: int| 0 <= k < es.len() ==> mag(es[k].z_score as int) <= sum_abs_z(es),
        es.len() >= 1 && (forall|k: int| 0 <= k < es.len() ==> es[k].z_score != 0) ==> sum_abs_z(
            es,
        ) >= 1,
    decreases es.len(),
{
    if es.len() > 0 {
        lemma_sum_abs_z_bounds(es.drop_last());
        assert(forall|k: int| 0 <= k < es.len() - 1 ==> es.drop_last()[k] == es[k]);
    }
}

/// Floor division distributes over a sum up to one unit: for nonnegative `x`,
/// `y` and positive `d`, `x/d + y/d` and `(x+y)/d` agree or differ by one.
proof fn lemma_div_sum(x: int, y: int, d: int)
    requires
        0 <= x,
        0 <= y,
        1 <= d,
    ensures
        x / d + y / d <= (x + y) / d,
        (x + y) / d <= x / d + y / d + 1,
{
    lemma_fundamental_div_mod(x, d);
    lemma_fundamental_div_mod(y, d);
    lemma_mod_bound(x, d);
    lemma_mod_bound(y, d);
    let qx = x / d;
    let qy = y / d;
    let q = qx + qy;
    let b = x % d + y % d;
    assert(d * qx + d * qy == d * (qx + qy)) by (nonlinear_arith);
    assert(x + y == d * q + b);
    if b < d {
        lemma_div_multiples_vanish_fancy(q, b, d);
    } else {
        assert(d * q + b == d * (q + 1) + (b - d)) by (nonlinear_arith);
        lemma_div_multiples_vanish_fancy(q + 1, b - d, d);
    }
}

/// The sizing law: against any positive denominator `sumz` at least the
/// batch's own magnitude sum, the notionals add up to the exact budget share
/// of the batch, up to one unit of floor rounding per instrument.
proof fn lemma_sum_notional_bounds(es: Seq<Evaluation>, cash: u64, sumz: int)
    requires
        1 <= sumz,
    ensures
        es.len() >= 1 ==> cash * sum_abs_z(es) / sumz - (es.len() - 1) <= sum_notional(
            es,
            cash,
            sumz,
        ),
        sum_notional(es, cash, sumz) <= cash * sum_abs_z(es) / sumz,
    decreases es.len(),
{
    if es.len() == 0 {
        lemma_div_pos_is_pos(0, sumz);
    } else {
        let t = es.drop_last();
        let m = mag(es.last().z_score as int);
        lemma_sum_notional_bounds(t, cash, sumz);
        lemma_sum_abs_z_bounds(t);
        assert(cash * sum_abs_z(es) == cash * sum_abs_z(t) + cash * m) by (nonlinear_arith)
            requires
                sum_abs_z(es) == sum_abs_z(t) + m,
        ;
        assert(cash * m >= 0) by (nonlinear_arith)
            requires
                m >= 0,
        ;
        assert(cash * sum_abs_z(t) >= 0) by (nonlinear_arith)
            requires
                sum_abs_z(t) >= 0,
        ;
        lemma_div_sum(cash * sum_abs_z(t), cash * m, sumz);
    }
}

/// With at least one instrument selected, the emitted notionals exhaust the
/// cash budget up to floor rounding: their sum lies in (cash - k, cash] for k
/// instruments; each instrument's signed notional opposes the sign of its
/// last return by construction of the opening instruction.
pub proof fn lemma_sizing_exhausts_budget(es: Seq<Evaluation>, cash: u64)
    requires
        es.len() >= 1,
        forall|k: int| 0 <= k < es.len() ==> es[k].z_score != 0,
    ensures
        sum_notional(es, cash, sum_abs_z(es)) <= cash,
        cash - es.len() < sum_notional(es, cash, sum_abs_z(es)),
{
    lemma_sum_abs_z_bounds(es);
    let sz = sum_abs_z(es);
    lemma_sum_notional_bounds(es, cash, sz);
    lemma_div_by_multiple(cash as int, sz);
    assert(cash * sz == sz * cash) by (nonlinear_arith);
}

/// The signed notional an instruction carries, zero for a flattening one.
pub open spec fn intent_amount(p: PositionIntent) -> int {
    match p.amount {
        Amount::Dollars(d) => d as int,
        Amount::Zero => 0,
    }
}

/// Sum of the magnitudes of the notionals a batch of instructions carries.
pub open spec fn sum_abs_dollars(ps: Seq<PositionIntent>) -> int
    decreases ps.len(),
{
    if ps.len() == 0 {
        0
    } else {
        sum_abs_dollars(ps.drop_last()) + mag(intent_amount(ps.last()))
    }
}

/// A batch of instruction pairs shaped as `size_positions` emits them carries
/// exactly the floor-weighted notionals: the flattening instructions add
/// nothing, and each opening one adds its evaluation's budget share.
proof fn lemma_sum_abs_dollars_eq(
    ps: Seq<PositionIntent>,
    es: Seq<Evaluation>,
    cash: u64,
    sumz: int,
    now: i64,
    close_after: i64,
)
    requires
        1 <= sumz,
        ps.len() == 2 * es.len(),
        forall|k: int| 0 <= k < es.len() ==> is_open_intent(#[trigger] ps[2 * k], es[k], cash, sumz, now),
        forall|k: int|
            0 <= k < es.len() ==> is_flatten_intent(#[trigger] ps[2 * k + 1], es[k], close_after),
    ensures
        sum_abs_dollars(ps) == sum_notional(es, cash, sumz),
    decreases es.len(),
{
    if es.len() == 0 {
    } else {
        let est = es.drop_last();
        let pst = ps.take(2 * est.len() as int);
        assert forall|k: int| 0 <= k < est.len() implies is_open_intent(
            #[trigger] pst[2 * k],
            est[k],
            cash,
            sumz,
            now,
        ) by {
            assert(pst[2 * k] == ps[2 * k]);
            assert(est[k] == es[k]);
        }
        assert forall|k: int| 0 <= k < est.len() implies is_flatten_intent(
            #[trigger] pst[2 * k + 1],
            est[k],
            close_after,
        ) by {
            assert(pst[2 * k + 1] == ps[2 * k + 1]);
            assert(est[k] == es[k]);
        }
        lemma_sum_abs_dollars_eq(pst, est, cash, sumz, now, close_after);
        let m = es.len() - 1;
        assert(is_open_intent(ps[2 * m], es[m], cash, sumz, now));
        assert(is_flatten_intent(ps[2 * m + 1], es[m], close_after));
        let e = es[m];
        let zm = mag(e.z_score as int);
        assert(cash * zm >= 0) by (nonlinear_arith)
            requires
                zm >= 0,
        ;
        lemma_div_pos_is_pos(cash * zm, sumz);
        assert(mag(intent_amount(ps[2 * m])) == spec_notional(e, cash, sumz));
        assert(mag(intent_amount(ps[2 * m + 1])) == 0);
        assert(ps.drop_last().drop_last() =~= pst);
        assert(ps.drop_last().last() == ps[2 * m]);
        assert(ps.last() == ps[2 * m + 1]);
        assert(es.last() == es[m]);
        assert(sum_abs_dollars(ps) == sum_abs_dollars(ps.drop_last()) + mag(
            intent_amount(ps.last()),
        ));
        assert(sum_abs_dollars(ps.drop_last()) == sum_abs_dollars(pst) + mag(
            intent_amount(ps.drop_last().last()),
        ));
        assert(sum_notional(es, cash, sumz) == sum_notional(est, cash, sumz) + spec_notional(
            es.last(),
            cash,
            sumz,
        ));
    }
}

/// The sizing law over the emitted batch: with at least one instrument, the
/// magnitudes of the emitted signed notionals exhaust the cash budget up to
/// one unit of floor rounding per instrument.
pub proof fn lemma_emitted_notionals_exhaust_budget(
    ps: Seq<PositionIntent>,
    es: Seq<Evaluation>,
    cash: u64,
    now: i64,
    close_after: i64,
)
    requires
        es.len() >= 1,
        forall|k: int| 0 <= k < es.len() ==> (#[trigger] es[k].z_score) != 0,
        ps.len() == 2 * es.len(),
        forall|k: int|
            0 <= k < es.len() ==> is_open_intent(
                #[trigger] ps[2 * k],
                es[k],
                cash,
                sum_abs_z(es),
                now,
            ),
        forall|k: int|
            0 <= k < es.len() ==> is_flatten_intent(#[trigger] ps[2 * k + 1], es[k], close_after),
    ensures
        sum_abs_dollars(ps) <= cash,
        cash - es.len() < sum_abs_dollars(ps),
{
    lemma_sum_abs_z_bounds(es);
    lemma_sum_abs_dollars_eq(ps, es, cash, sum_abs_z(es), now, close_after);
    lemma_sizing_exhausts_budget(es, cash);
}

/// Emit the two instructions per evaluation: a dollar-weighted, limit-guarded
/// opening instruction valid for 30 minutes from `now`, and a zero-size
/// flattening instruction valid from `close_after` onward. Upward last
/// returns are sold (negative notional), others bought.
pub fn size_positions(evals: &Vec<Evaluation>, cash: u64, now: i64, close_after: i64) -> (r: Vec<
    PositionIntent,
>)
    requires
        forall|k: int| 0 <= k < evals@.len() ==> (#[trigger] evals@[k].z_score) != 0,
        forall|k: int| 0 <= k < evals@.len() ==> (#[trigger] evals@[k].price) <= MAX_PRICE,
        now <= i64::MAX - 1800,
    ensures
        r@.len() == 2 * evals@.len(),
        forall|k: int|
            0 <= k < evals@.len() ==> is_open_intent(
                #[trigger] r@[2 * k],
                evals@[k],
                cash,
                sum_abs_z(evals@),
                now,
            ),
        forall|k: int|
            0 <= k < evals@.len() ==> is_flatten_intent(#[trigger] r@[2 * k + 1], evals@[k], close_after),
{
    let ghost es = evals@;
    let mut sz: u128 = 0;
    let mut i: usize = 0;
    while i < evals.len()
        invariant
            es == evals@,
            i <= es.len(),
            sz == sum_abs_z(es.take(i as int)),
            sz <= i * 0x8000000000000000,
        decreases es.len() - i,
    {
        let z = evals[i].z_score;
        let zm = if z < 0 {
            -(z as i128)
        } else {
            z as i128
        };
        proof {
            assert(es.take(i + 1).drop_last() =~= es.take(i as int));
            assert(es.take(i + 1).last() == es[i as int]);
            assert(zm == mag(es[i as int].z_score as int));
            lemma_mul_inequality(i as int, 0xFFFFFFFFFFFFFFFF, 0x8000000000000000);
            assert((i + 1) * 0x8000000000000000 == i * 0x8000000000000000 + 0x8000000000000000)
                by (nonlinear_arith);
        }
        sz = sz + (zm as u128);
        i = i + 1;
    }
    proof {
        assert(es.take(es.len() as int) =~= es);
    }

    let mut out: Vec<PositionIntent> = Vec::new();
    let mut j: usize = 0;
    while j < evals.len()
        invariant
            es == evals@,
            j <= es.len(),
            sz == sum_abs_z(es),
            forall|k: int| 0 <= k < es.len() ==> (#[trigger] es[k].z_score) != 0,
            forall|k: int| 0 <= k < es.len() ==> (#[trigger] es[k].price) <= MAX_PRICE,
            now <= i64::MAX - 1800,
            out@.len() == 2 * j,
            forall|k: int|
                0 <= k < j ==> is_open_intent(#[trigger] out@[2 * k], es[k], cash, sum_abs_z(es), now),
            forall|k: int|
                0 <= k < j ==> is_flatten_intent(#[trigger] out@[2 * k + 1], es[k], close_after),
        decreases es.len() - j,
    {
        proof {
            lemma_sum_abs_z_bounds(es);
        }
        let z = evals[j].z_score;
        let zm: u128 = if z < 0 {
            -(z as i128) as u128
        } else {
            z as u128
        };
        proof {
            assert(zm == mag(es[j as int].z_score as int));
            assert(zm >= 1);
            assert(cash * zm <= 0xFFFFFFFFFFFFFFFF * 0x8000000000000000) by (nonlinear_arith)
                requires
                    0 <= cash <= 0xFFFFFFFFFFFFFFFF && 0 <= zm <= 0x8000000000000000,
            ;
            assert(cash * zm <= cash * sz) by (nonlinear_arith)
                requires
                    0 <= cash && 0 <= zm <= sz,
            ;
            lemma_div_is_ordered((cash * zm) as int, (cash * sz) as int, sz as int);
            lemma_div_by_multiple(cash as int, sz as int);
            assert(cash * sz == sz * cash) by (nonlinear_arith);
            lemma_div_pos_is_pos((cash * zm) as int, sz as int);
        }
        let notional: u128 = (cash as u128) * zm / sz;
        let price = evals[j].price;
        let last_ret = evals[j].last_ret;
        proof {
            assert(price * 995 <= MAX_PRICE * 995 && price * 1005 <= MAX_PRICE * 1005)
                by (nonlinear_arith)
                requires
                    0 <= price <= MAX_PRICE,
            ;
        }
        let (dollars, limit) = if last_ret > 0 {
            (-(notional as i128), price * 995 / 1000)
        } else {
            (notional as i128, price * 1005 / 1000)
        };
        let open = PositionIntent {
            strategy: String::from_str("jump-diffusion"),
            ticker: evals[j].ticker.clone(),
            amount: Amount::Dollars(dollars),
            limit_price: Some(limit),
            decision_price: Some(price),
            after: None,
            before: Some(now + 1800),
        };
        let flatten = PositionIntent {
            strategy: String::from_str("jump-diffusion"),
            ticker: evals[j].ticker.clone(),
            amount: Amount::Zero,
            limit_price: None,
            decision_price: None,
            after: Some(close_after),
            before: None,
        };
        proof {
            assert(is_open_intent(open, es[j as int], cash, sum_abs_z(es), now));
            assert(is_flatten_intent(flatten, es[j as int], close_after));
        }
        out.push(open);
        out.push(flatten);
        j = j + 1;
    }
    out
}

} // verus!
