//! Per-instrument series construction: filter a day's minute bars to the
//! regular session, append the external reference price, and derive the
//! log-return series; and the partition of per-instrument outcomes into
//! successes and errors.
use vstd::prelude::*;

use crate::aggregates::bar_in_session;
use crate::aggregates::Bar;
use crate::aggregates::JumpDiffusionAggregate;
use crate::aggregates::MAX_BAR_INSTANT;
use crate::math::ints;

verus! {

/// Largest price (at the 1e-6 scale) the series builder accepts: 1e10
/// currency units.
pub const MAX_PRICE: u64 = 10_000_000_000_000_000;

/// One instrument's derived series: the chronological log returns (1e-9
/// scale), ending with the synthetic return from the last in-session close to
/// the external reference price, and that reference price (1e-6 scale).
pub struct Data {
    pub ticker: String,
    pub log_returns: Vec<i64>,
    pub current_price: u64,
}

/// Why one instrument's retrieval or series construction failed. The batch
/// drops the instrument and goes on.
#[derive(Clone, Copy, Debug, PartialEq, Eq, Structural)]
pub enum FetchError {
    /// The day's bar query returned no bars.
    MissingBars,
    /// No current reference price is available.
    MissingReferencePrice,
    /// The instrument is unknown to the data source.
    NotFound,
    /// A transient retrieval failure.
    Transient,
    /// The data source refused the request rate.
    RateLimited,
}

/// The natural logarithm of p * 1e-6, at the 1e-9 scale, exactly as
/// rust_decimal computes it (ln, then rescaled to 9 decimal places).
pub uninterp spec fn decimal_ln_nano(p: int) -> int;

/// Relies on rust_decimal's `MathematicalOps::checked_ln` (`None` only for
/// non-positive inputs, so never here), `Decimal::rescale` and
/// `Decimal::mantissa`. The result is a function of the argument alone; its
/// magnitude stays below 24e9 because |ln(x)| < 24 for x in [1e-6, 1e10].
#[verifier::external_body]
fn decimal_ln(p: u64) -> (r: i64)
    requires
        1 <= p <= MAX_PRICE,
    ensures
        r == decimal_ln_nano(p as int),
        -24_000_000_000 <= r <= 24_000_000_000,
{
    let d = rust_decimal::Decimal::new(p as i64, 6);
    match rust_decimal::MathematicalOps::checked_ln(&d) {
        Some(mut v) => {
            v.rescale(9);
            v.mantissa() as i64
        },
        None => 0,
    }
}

/// The closing prices of the in-session bars, in input order.
pub open spec fn session_closes(bars: Seq<Bar>) -> Seq<u64>
    decreases bars.len(),
{
    if bars.len() == 0 {
        Seq::empty()
    } else {
        let rest = session_closes(bars.drop_last());
        if bar_in_session(bars.last()) {
            rest.push(bars.last().close)
        } else {
            rest
        }
    }
}

/// The log returns of a price sequence: ln(p[i+1]) - ln(p[i]) for each
/// adjacent pair, at the 1e-9 scale.
pub open spec fn log_returns_of(prices: Seq<u64>) -> Seq<int> {
    if prices.len() == 0 {
        Seq::empty()
    } else {
        Seq::new(
            (prices.len() - 1) as nat,
            |i: int| decimal_ln_nano(prices[i + 1] as int) - decimal_ln_nano(prices[i] as int),
        )
    }
}

/// The log-return series a bar set and reference price determine.
pub open spec fn series_returns(bars: Seq<Bar>, reference_price: u64) -> Seq<int> {
    log_returns_of(session_closes(bars).push(reference_price))
}

/// The bars' instants lie where the local clock is defined and their closes
/// are positive and within the logarithm's domain.
pub open spec fn bars_ok(bars: Seq<Bar>) -> bool {
    forall|i: int|
        0 <= i < bars.len() ==> (0 <= #[trigger] bars[i].t <= MAX_BAR_INSTANT && 1 <= bars[i].close
            <= MAX_PRICE)
}

/// Build one instrument's series: keep the in-session bars' closes, append
/// the reference price, and take adjacent log differences. An empty bar set
/// or a missing reference price fails the instrument; no default price is
/// ever substituted.
pub fn build_series(ticker: String, bars: &Vec<Bar>, reference_price: Option<u64>) -> (r: Result<
    Data,
    FetchError,
>)
    requires
        bars_ok(bars@),
        match reference_price {
            Option::Some(p) => 1 <= p <= MAX_PRICE,
            Option::None => true,
        },
    ensures
        bars@.len() == 0 ==> (r matches Result::Err(e) && e == FetchError::MissingBars),
        bars@.len() > 0 && reference_price is None ==> (r matches Result::Err(e) && e
            == FetchError::MissingReferencePrice),
        bars@.len() > 0 && reference_price is Some ==> (r matches Result::Ok(d) && {
            &&& d.ticker@ == ticker@
            &&& d.current_price == reference_price->0
            &&& ints(d.log_returns@) == series_returns(bars@, reference_price->0)
        }),
{
    if bars.len() == 0 {
        return Err(FetchError::MissingBars);
    }
    let rp = match reference_price {
        Some(p) => p,
        None => {
            return Err(FetchError::MissingReferencePrice);
        },
    };

    let mut prices: Vec<u64> = Vec::new();
    let mut i: usize = 0;
    while i < bars.len()
        invariant
            bars_ok(bars@),
            i <= bars@.len(),
            prices@ == session_closes(bars@.take(i as int)),
            forall|k: int| 0 <= k < prices@.len() ==> 1 <= #[trigger] prices@[k] <= MAX_PRICE,
        decreases bars@.len() - i,
    {
        let b = bars[i];
        proof {
            assert(b == bars@[i as int]);
            assert(bars@.take(i + 1).drop_last() =~= bars@.take(i as int));
            assert(bars@.take(i + 1).last() == bars@[i as int]);
        }
        if b.is_open() {
            prices.push(b.close);
        }
        i = i + 1;
    }
    proof {
        assert(bars@.take(bars@.len() as int) =~= bars@);
    }
    prices.push(rp);
    let ghost ps = prices@;
    proof {
        assert(ps == session_closes(bars@).push(rp));
    }

    let mut rets: Vec<i64> = Vec::new();
    let mut prev_ln = decimal_ln(prices[0]);
    let mut j: usize = 1;
    while j < prices.len()
        invariant
            1 <= j,
            j <= prices@.len(),
            prices@ == ps,
            ps.len() >= 1,
            forall|k: int| 0 <= k < ps.len() ==> 1 <= #[trigger] ps[k] <= MAX_PRICE,
            prev_ln == decimal_ln_nano(ps[j - 1] as int),
            -24_000_000_000 <= prev_ln <= 24_000_000_000,
            rets@.len() == j - 1,
            forall|k: int| 0 <= k < j - 1 ==> #[trigger] rets@[k] as int == log_returns_of(ps)[k],
        decreases prices@.len() - j,
    {
        let cur = decimal_ln(prices[j]);
        rets.push(cur - prev_ln);
        prev_ln = cur;
        j = j + 1;
    }
    proof {
        assert(ints(rets@) =~= log_returns_of(ps));
    }
    Ok(Data { ticker, log_returns: rets, current_price: rp })
}

/// Two constructions from the same bars and reference price yield identical
/// log-return sequences: the series is a function of its inputs alone.
pub proof fn lemma_series_construction_repeatable(d1: Data, d2: Data, bars: Seq<Bar>, rp: u64)
    requires
        ints(d1.log_returns@) == series_returns(bars, rp),
        ints(d2.log_returns@) == series_returns(bars, rp),
    ensures
        d1.log_returns@ == d2.log_returns@,
{
    let s1 = d1.log_returns@;
    let s2 = d2.log_returns@;
    assert(ints(s1).len() == s1.len());
    assert(ints(s2).len() == s2.len());
    assert forall|k: int| 0 <= k < s1.len() implies s1[k] == s2[k] by {
        assert(ints(s1)[k] == s1[k] as int);
        assert(ints(s2)[k] == s2[k] as int);
    }
    assert(s1 =~= s2);
}

/// The successful series among per-instrument outcomes, in input order.
pub open spec fn oks(rs: Seq<Result<Data, FetchError>>) -> Seq<Data>
    decreases rs.len(),
{
    if rs.len() == 0 {
        Seq::empty()
    } else {
        match rs[0] {
            Result::Ok(d) => seq![d] + oks(rs.drop_first()),
            Result::Err(_) => oks(rs.drop_first()),
        }
    }
}

/// The errors among per-instrument outcomes, in input order.
pub open spec fn errs(rs: Seq<Result<Data, FetchError>>) -> Seq<FetchError>
    decreases rs.len(),
{
    if rs.len() == 0 {
        Seq::empty()
    } else {
        match rs[0] {
            Result::Ok(_) => errs(rs.drop_first()),
            Result::Err(e) => seq![e] + errs(rs.drop_first()),
        }
    }
}

/// Every outcome lands in exactly one side, so the batch never loses or
/// invents an instrument.
pub proof fn lemma_partition_counts(rs: Seq<Result<Data, FetchError>>)
    ensures
        oks(rs).len() + errs(rs).len() == rs.len(),
    decreases rs.len(),
{
    if rs.len() > 0 {
        lemma_partition_counts(rs.drop_first());
    }
}

/// Split per-instrument outcomes into the successful series and the errors.
/// A failure never aborts the batch: downstream ranking sees exactly the
/// successes, and every error is reported.
pub fn partition_results(results: Vec<Result<Data, FetchError>>) -> (r: (
    Vec<Data>,
    Vec<FetchError>,
))
    ensures
        r.0@ == oks(results@),
        r.1@ == errs(results@),
        r.0@.len() + r.1@.len() == results@.len(),
{
    let ghost orig = results@;
    let mut rest = results;
    let mut good: Vec<Data> = Vec::new();
    let mut bad: Vec<FetchError> = Vec::new();
    proof {
        assert(good@ + oks(rest@) =~= oks(orig));
        assert(bad@ + errs(rest@) =~= errs(orig));
    }
    while rest.len() > 0
        invariant
            oks(orig) == good@ + oks(rest@),
            errs(orig) == bad@ + errs(rest@),
        decreases rest@.len(),
    {
        let ghost before = rest@;
        let x = rest.remove(0);
        proof {
            assert(before.drop_first() =~= rest@);
            assert(before[0] == x);
        }
        match x {
            Ok(d) => {
                proof {
                    assert(oks(before) == seq![d] + oks(rest@));
                    assert(good@ + oks(before) =~= good@.push(d) + oks(rest@));
                    assert(bad@ + errs(before) =~= bad@ + errs(rest@));
                }
                good.push(d);
            },
            Err(e) => {
                proof {
                    assert(errs(before) == seq![e] + errs(rest@));
                    assert(bad@ + errs(before) =~= bad@.push(e) + errs(rest@));
                    assert(good@ + oks(before) =~= good@ + oks(rest@));
                }
                bad.push(e);
            },
        }
    }
    proof {
        assert(oks(rest@) =~= Seq::empty());
        assert(errs(rest@) =~= Seq::empty());
        assert(good@ + oks(rest@) =~= good@);
        assert(bad@ + errs(rest@) =~= bad@);
        lemma_partition_counts(orig);
    }
    (good, bad)
}

} // verus!
