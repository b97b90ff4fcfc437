//! Integer bookkeeping of the Leibniz-series pi estimate: the shape of each
//! term and the progress percentage. The floating-point division and the
//! parallel summation belong to the surrounding application; every term is a
//! pure function of its index, so the sum depends only on the iteration
//! count, never on how the work was split.

use vstd::prelude::*;

verus! {

/// The shape of term `i` of the series: term `i` is `4 / (2 * i + 1)`,
/// positive for even `i` and negative for odd `i`. `None` only when the
/// denominator would not fit the machine word.
pub fn leibniz_term(i: u64) -> (r: Option<(bool, u64)>)
    ensures
        2 * i + 1 <= u64::MAX ==> r == Some(((i % 2 == 0), (2 * i + 1) as u64)),
        2 * i + 1 > u64::MAX ==> r is None,
{
    if i <= (u64::MAX - 1) / 2 {
        Some((i % 2 == 0, 2 * i + 1))
    } else {
        None
    }
}

/// Progress of `completed` work units out of `total`, in hundredths of a
/// percent, capped at 100.00%.
pub open spec fn progress_bp_of(completed: u64, total: u64) -> int {
    if completed >= total {
        10000
    } else {
        (completed as int) * 10000 / (total as int)
    }
}

/// Progress of `completed` work units out of `total`, in hundredths of a
/// percent: it can never overshoot 100.00%, and reads exactly 100.00% once
/// the counter reaches the target.
pub fn progress_basis_points(completed: u64, total: u64) -> (bp: u64)
    requires
        1 <= total,
    ensures
        bp == progress_bp_of(completed, total),
        bp <= 10000,
        (bp == 10000) <==> (completed >= total),
{
    if completed >= total {
        10000
    } else {
        let wide: u128 = (completed as u128) * 10000 / (total as u128);
        proof {
            assert((completed as int) * 10000 / (total as int) < 10000) by (nonlinear_arith)
                requires
                    (completed as int) < (total as int),
                    1 <= (total as int),
            ;
        }
        wide as u64
    }
}

/// The two numbers of a progress line, whole percent and hundredths: the
/// line reads `100.00` exactly when the work is complete, and below that
/// before.
pub fn progress_percent_parts(completed: u64, total: u64) -> (parts: (u64, u64))
    requires
        1 <= total,
    ensures
        parts.0 == progress_bp_of(completed, total) / 100,
        parts.1 == progress_bp_of(completed, total) % 100,
        parts.0 <= 100,
        parts.1 <= 99,
        (parts.0 == 100 && parts.1 == 0) <==> completed >= total,
{
    let bp = progress_basis_points(completed, total);
    (bp / 100, bp % 100)
}

} // verus!
