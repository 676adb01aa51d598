//! Binary searches for the point where an evaluation crosses over.

use vstd::prelude::*;

verus! {

/// Some call of `eval` on `x` may return a non-negative value.
pub open spec fn may_be_nonneg<F: Fn(i64) -> i64>(eval: F, x: i64) -> bool {
    exists|v: i64| call_ensures(eval, (x,), v) && v >= 0
}

/// Some call of `eval` on `x` may return a negative value.
pub open spec fn may_be_negative<F: Fn(i64) -> i64>(eval: F, x: i64) -> bool {
    exists|v: i64| call_ensures(eval, (x,), v) && v < 0
}

/// On `[low, high]`, once `eval` may return a non-negative value at some point,
/// every call at that point and at every later point returns a non-negative value.
pub open spec fn sign_monotone<F: Fn(i64) -> i64>(eval: F, low: i64, high: i64) -> bool {
    forall|x: i64, y: i64, vx: i64, vy: i64|
        #![trigger call_ensures(eval, (x,), vx), call_ensures(eval, (y,), vy)]
        low <= x <= y <= high && call_ensures(eval, (x,), vx) && call_ensures(eval, (y,), vy)
            && vx >= 0 ==> vy >= 0
}

/// Some call of `pred` on `x` may return `b`.
pub open spec fn may_return<F: Fn(i64) -> bool>(pred: F, x: i64, b: bool) -> bool {
    call_ensures(pred, (x,), b)
}

/// On `[low, high]`, once `pred` may hold at some point, every call at that
/// point and at every later point returns `true`.
pub open spec fn pred_monotone<F: Fn(i64) -> bool>(pred: F, low: i64, high: i64) -> bool {
    forall|x: i64, y: i64, b: bool|
        #![trigger call_ensures(pred, (x,), true), call_ensures(pred, (y,), b)]
        low <= x <= y <= high && call_ensures(pred, (x,), true) && call_ensures(pred, (y,), b)
            ==> b
}

/// On `[low, high)`, every call of `eval` gives `ev` of its argument.
pub open spec fn evaluates_by<F: Fn(i64) -> i64>(eval: F, ev: spec_fn(i64) -> int, low: int, high: int) -> bool {
    forall|x: i64, v: i64| low <= x < high && #[trigger] call_ensures(eval, (x,), v) ==> v == ev(x)
}

/// Where bisecting `[lo, hi)` for the first point at which `ev` is
/// non-negative ends: halve at `mid = lo + (hi - lo) / 2`, keeping the lower
/// half (with `mid`) when `ev(mid) >= 0` and the upper half (without it) when not.
pub open spec fn threshold_bisect(lo: int, hi: int, ev: spec_fn(i64) -> int) -> int
    decreases hi - lo,
{
    if lo >= hi {
        lo
    } else {
        let mid = lo + (hi - lo) / 2;
        if ev(mid as i64) >= 0 {
            threshold_bisect(lo, mid, ev)
        } else {
            threshold_bisect(mid + 1, hi, ev)
        }
    }
}

/// On `[low, high]`, every call of `pred` gives `pv` of its argument.
pub open spec fn predicts_by<F: Fn(i64) -> bool>(pred: F, pv: spec_fn(i64) -> bool, low: int, high: int) -> bool {
    forall|x: i64, b: bool| low <= x <= high && #[trigger] call_ensures(pred, (x,), b) ==> b == pv(x)
}

/// Where bisecting `[lo, hi]` for the first point at which `pv` holds ends,
/// `res` being the last point seen to hold: halve at `mid = lo + (hi - lo) / 2`,
/// remembering `mid` and keeping the points below it when `pv(mid)`, keeping
/// the points above it when not.
pub open spec fn first_bisect(lo: int, hi: int, res: Option<i64>, pv: spec_fn(i64) -> bool) -> Option<i64>
    decreases hi - lo + 1,
{
    if lo > hi {
        res
    } else {
        let mid = lo + (hi - lo) / 2;
        if pv(mid as i64) {
            first_bisect(lo, mid - 1, Some(mid as i64), pv)
        } else {
            first_bisect(mid + 1, hi, res, pv)
        }
    }
}

/// Under a monotone sign, the bisection of `[lo, hi)` ends at the first point
/// where `ev` is non-negative, or at `hi` if there is none.
pub proof fn lemma_threshold_bisect_least(lo: int, hi: int, ev: spec_fn(i64) -> int)
    requires
        i64::MIN <= lo <= hi <= i64::MAX,
        forall|x: i64, y: i64| #![trigger ev(x), ev(y)] lo <= x <= y < hi && ev(x) >= 0 ==> ev(y) >= 0,
    ensures
        lo <= threshold_bisect(lo, hi, ev) <= hi,
        forall|x: i64| lo <= x < threshold_bisect(lo, hi, ev) ==> #[trigger] ev(x) < 0,
        threshold_bisect(lo, hi, ev) < hi ==> ev(threshold_bisect(lo, hi, ev) as i64) >= 0,
    decreases hi - lo,
{
    if lo < hi {
        let mid = lo + (hi - lo) / 2;
        let m = mid as i64;
        if ev(m) >= 0 {
            lemma_threshold_bisect_least(lo, mid, ev);
        } else {
            lemma_threshold_bisect_least(mid + 1, hi, ev);
            assert forall|x: i64| lo <= x < threshold_bisect(lo, hi, ev) implies #[trigger] ev(x) < 0 by {
                if x <= mid && ev(x) >= 0 {
                    assert(ev(m) >= 0);
                }
            }
        }
    }
}

/// Under a monotone predicate, the bisection of `[lo, hi]` ends at the first
/// point where `pv` holds, or at `res` if it holds nowhere there.
pub proof fn lemma_first_bisect_least(lo: int, hi: int, res: Option<i64>, pv: spec_fn(i64) -> bool)
    requires
        i64::MIN <= lo,
        hi <= i64::MAX,
        lo <= hi + 1,
        forall|x: i64, y: i64| #![trigger pv(x), pv(y)] lo <= x <= y <= hi && pv(x) ==> pv(y),
    ensures
        (exists|x: i64| lo <= x <= hi && #[trigger] pv(x)) ==> {
            let r = first_bisect(lo, hi, res, pv);
            &&& r is Some
            &&& lo <= r->0 <= hi
            &&& pv(r->0)
            &&& forall|y: i64| lo <= y < r->0 ==> !#[trigger] pv(y)
        },
        !(exists|x: i64| lo <= x <= hi && #[trigger] pv(x)) ==> first_bisect(lo, hi, res, pv) == res,
    decreases hi - lo + 1,
{
    if lo <= hi {
        let mid = lo + (hi - lo) / 2;
        let m = mid as i64;
        if pv(m) {
            lemma_first_bisect_least(lo, mid - 1, Some(m), pv);
            if !(exists|x: i64| lo <= x <= mid - 1 && #[trigger] pv(x)) {
                assert forall|y: i64| lo <= y < m implies !#[trigger] pv(y) by {}
            }
        } else {
            lemma_first_bisect_least(mid + 1, hi, res, pv);
            if exists|x: i64| lo <= x <= hi && #[trigger] pv(x) {
                let x = choose|x: i64| lo <= x <= hi && #[trigger] pv(x);
                if x <= mid {
                    assert(pv(m));
                }
                assert(mid + 1 <= x <= hi && pv(x));
                let r = first_bisect(lo, hi, res, pv);
                assert forall|y: i64| lo <= y < r->0 implies !#[trigger] pv(y) by {
                    if y <= mid && pv(y) {
                        assert(pv(m));
                    }
                }
            } else {
                if exists|x: i64| mid + 1 <= x <= hi && #[trigger] pv(x) {
                    let x = choose|x: i64| mid + 1 <= x <= hi && #[trigger] pv(x);
                    assert(lo <= x <= hi && pv(x));
                }
            }
        }
    }
}

/// Binary search on a threshold function over ternary signals.
///
/// Returns `low` when the range `[low, high)` is empty. Otherwise the result
/// `r` lies in `[low, high]`, the point just below it was seen negative (unless
/// `r == low`) and `r` itself was seen non-negative (unless `r == high`). When
/// the sign of `eval` is monotone on the range, `r` is the least point of
/// `[low, high)` at which `eval` is non-negative, or `high` if there is none.
pub fn binary_threshold_search<F>(low: i64, high: i64, eval: F) -> (r: i64) where
    F: Fn(i64) -> i64,

    requires
        low < high ==> high - low <= i64::MAX,
        forall|x: i64| low <= x < high ==> call_requires(eval, (x,)),
    ensures
        low >= high ==> r == low,
        low < high ==> {
            &&& low <= r <= high
            &&& (r == low || may_be_negative(eval, (r - 1) as i64))
            &&& (r == high || may_be_nonneg(eval, r))
        },
        low < high && sign_monotone(eval, low, high) ==> {
            &&& forall|x: i64| low <= x < r ==> !#[trigger] may_be_nonneg(eval, x)
            &&& forall|y: i64| r <= y <= high && r < high ==> !#[trigger] may_be_negative(eval, y)
        },
        forall|ev: spec_fn(i64) -> int| #[trigger] evaluates_by(eval, ev, low as int, high as int) ==> r
            == threshold_bisect(low as int, high as int, ev),
{
    let mut lo = low;
    let mut hi = high;
    while lo < hi
        invariant
            low <= lo <= hi <= high || (lo == low && hi == high),
            low < high ==> low <= lo <= hi <= high,
            low >= high ==> lo == low,
            low < high ==> high - low <= i64::MAX,
            forall|x: i64| low <= x < high ==> call_requires(eval, (x,)),
            lo == low || may_be_negative(eval, (lo - 1) as i64),
            hi == high || may_be_nonneg(eval, hi),
            forall|ev: spec_fn(i64) -> int| #[trigger] evaluates_by(eval, ev, low as int, high as int) ==> threshold_bisect(
                lo as int,
                hi as int,
                ev,
            ) == threshold_bisect(low as int, high as int, ev),
        decreases hi - lo,
    {
        let mid = lo + (hi - lo) / 2;
        let v = eval(mid);
        proof {
            assert forall|ev: spec_fn(i64) -> int| #[trigger] evaluates_by(eval, ev, low as int, high as int) implies v == ev(mid) by {
                assert(call_ensures(eval, (mid,), v));
            }
        }
        if v >= 0 {
            hi = mid;
        } else {
            lo = mid + 1;
        }
    }
    proof {
        if low < high && sign_monotone(eval, low, high) {
            assert forall|x: i64| low <= x < lo implies !#[trigger] may_be_nonneg(eval, x) by {
                if may_be_nonneg(eval, x) {
                    let vx = choose|v: i64| call_ensures(eval, (x,), v) && v >= 0;
                    let y = (lo - 1) as i64;
                    let vy = choose|v: i64| call_ensures(eval, (y,), v) && v < 0;
                    assert(call_ensures(eval, (x,), vx) && call_ensures(eval, (y,), vy));
                }
            }
            assert forall|y: i64| lo <= y <= high && lo < high implies !#[trigger] may_be_negative(
                eval,
                y,
            ) by {
                if may_be_negative(eval, y) {
                    let vx = choose|v: i64| call_ensures(eval, (lo,), v) && v >= 0;
                    let vy = choose|v: i64| call_ensures(eval, (y,), v) && v < 0;
                    assert(call_ensures(eval, (lo,), vx) && call_ensures(eval, (y,), vy));
                }
            }
        }
    }
    lo
}

/// Binary search finding the threshold where the evaluation crosses from
/// negative to non-negative.
///
/// Returns `None` when `low > high` or when `pred` was seen false at `high`.
/// `Some(r)` has `r` in `[low, high]`, `pred` seen true at `r`, and seen false
/// at `r - 1` unless `r == low`. When `pred` is monotone on the range, `Some(r)`
/// gives the least point where it holds, and `None` means it holds nowhere.
///
/// The search steps to `mid - 1` after a `true` and to `mid + 1` after a
/// `false`, so `pred` must not hold at `i64::MIN` when the range starts there,
/// nor fail at `i64::MAX` when the range ends there.
pub fn binary_search_first_nonneg<F>(low: i64, high: i64, eval: F) -> (res: Option<i64>) where
    F: Fn(i64) -> bool,

    requires
        low <= high ==> high - low <= i64::MAX,
        forall|x: i64| low <= x <= high ==> call_requires(eval, (x,)),
        low <= high && low == i64::MIN ==> !may_return(eval, low, true),
        low <= high && high == i64::MAX ==> !may_return(eval, high, false),
    ensures
        low > high ==> res is None,
        res is None ==> low > high || may_return(eval, high, false),
        res matches Some(r) ==> {
            &&& low <= r <= high
            &&& may_return(eval, r, true)
            &&& (r == low || may_return(eval, (r - 1) as i64, false))
        },
        low <= high && pred_monotone(eval, low, high) ==> {
            &&& res is None ==> forall|x: i64|
                low <= x <= high ==> !#[trigger] may_return(eval, x, true)
            &&& res matches Some(r) ==> forall|x: i64|
                low <= x < r ==> !#[trigger] may_return(eval, x, true)
            &&& res matches Some(r) ==> forall|y: i64|
                r <= y <= high ==> !#[trigger] may_return(eval, y, false)
        },
        forall|pv: spec_fn(i64) -> bool| #[trigger] predicts_by(eval, pv, low as int, high as int) ==> res
            == first_bisect(low as int, high as int, None, pv),
{
    let mut lo = low;
    let mut hi = high;
    let mut result: Option<i64> = None;
    while lo <= hi
        invariant
            low <= high ==> high - low <= i64::MAX,
            low <= high && low == i64::MIN ==> !may_return(eval, low, true),
            low <= high && high == i64::MAX ==> !may_return(eval, high, false),
            low <= high ==> low <= lo <= hi + 1 <= high + 1,
            low > high ==> lo == low && hi == high && result is None,
            forall|x: i64| low <= x <= high ==> call_requires(eval, (x,)),
            lo == low || may_return(eval, (lo - 1) as i64, false),
            result is None ==> hi == high,
            result matches Some(m) ==> m == hi + 1 && m <= high && may_return(eval, m, true),
            forall|pv: spec_fn(i64) -> bool| #[trigger] predicts_by(eval, pv, low as int, high as int) ==> first_bisect(
                lo as int,
                hi as int,
                result,
                pv,
            ) == first_bisect(low as int, high as int, None, pv),
        decreases hi - lo + 1,
    {
        let mid = lo + (hi - lo) / 2;
        let b = eval(mid);
        proof {
            assert forall|pv: spec_fn(i64) -> bool| #[trigger] predicts_by(eval, pv, low as int, high as int) implies b == pv(mid) by {
                assert(call_ensures(eval, (mid,), b));
            }
        }
        if b {
            result = Some(mid);
            hi = mid - 1;
        } else {
            lo = mid + 1;
        }
    }
    proof {
        if low <= high && pred_monotone(eval, low, high) {
            match result {
                None => {
                    assert forall|x: i64| low <= x <= high implies !#[trigger] may_return(
                        eval,
                        x,
                        true,
                    ) by {
                        if may_return(eval, x, true) {
                            assert(call_ensures(eval, (x,), true) && call_ensures(
                                eval,
                                (high,),
                                false,
                            ));
                        }
                    }
                },
                Some(r) => {
                    assert forall|x: i64| low <= x < r implies !#[trigger] may_return(
                        eval,
                        x,
                        true,
                    ) by {
                        if may_return(eval, x, true) {
                            let y = (r - 1) as i64;
                            assert(call_ensures(eval, (x,), true) && call_ensures(
                                eval,
                                (y,),
                                false,
                            ));
                        }
                    }
                    assert forall|y: i64| r <= y <= high implies !#[trigger] may_return(
                        eval,
                        y,
                        false,
                    ) by {
                        if may_return(eval, y, false) {
                            assert(call_ensures(eval, (r,), true) && call_ensures(
                                eval,
                                (y,),
                                false,
                            ));
                        }
                    }
                },
            }
        }
    }
    result
}

} // verus!
