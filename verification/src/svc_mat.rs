//! The arithmetic workers: each wraps one 64-bit integer operation
//! behind the `BinaryOpRequest → MathResponse` wire contract. The div
//! worker rejects a zero divisor as an invalid argument; a result
//! outside the 64-bit range is an internal failure.

use vstd::prelude::*;

use crate::expression::Operator;
use crate::wire::{BinaryOpRequest, MathResponse, SvcError};

verus! {

/// The absolute value.
pub open spec fn abs_int(a: int) -> int {
    if a < 0 {
        -a
    } else {
        a
    }
}

/// Division truncating toward zero, for `b != 0`: the host's integer
/// division.
pub open spec fn trunc_div(a: int, b: int) -> int {
    let q = abs_int(a) / abs_int(b);
    if (a < 0) == (b < 0) {
        q
    } else {
        -q
    }
}

/// Squeezing an unbounded result onto the wire: out of the 64-bit
/// range is an internal failure.
pub open spec fn in_range(v: int) -> Result<i64, SvcError> {
    if i64::MIN <= v <= i64::MAX {
        Ok(v as i64)
    } else {
        Err(SvcError::Internal)
    }
}

/// What each worker answers for the operands `(a, b)`.
pub open spec fn op_result(op: Operator, a: i64, b: i64) -> Result<i64, SvcError> {
    match op {
        Operator::Add => in_range(a + b),
        Operator::Sub => in_range(a - b),
        Operator::Mul => in_range(a * b),
        Operator::Div => if b == 0 {
            Err(SvcError::InvalidArgument)
        } else {
            in_range(trunc_div(a as int, b as int))
        },
    }
}

/// A worker's wire answer as the value or status it carries.
pub open spec fn worker_result(r: Result<MathResponse, SvcError>) -> Result<i64, SvcError> {
    match r {
        Ok(resp) => Ok(resp.result),
        Err(e) => Err(e),
    }
}

pub struct AddImpl {}

impl AddImpl {
    /// The add worker's handler: the sum of the operands.
    pub fn add(&self, req: BinaryOpRequest) -> (r: Result<MathResponse, SvcError>)
        ensures
            worker_result(r) == op_result(Operator::Add, req.num1, req.num2),
    {
        let s: i128 = req.num1 as i128 + req.num2 as i128;
        if s < i64::MIN as i128 || s > i64::MAX as i128 {
            Err(SvcError::Internal)
        } else {
            Ok(MathResponse { result: s as i64 })
        }
    }
}

pub struct SubImpl {}

impl SubImpl {
    /// The sub worker's handler: the difference of the operands.
    pub fn sub(&self, req: BinaryOpRequest) -> (r: Result<MathResponse, SvcError>)
        ensures
            worker_result(r) == op_result(Operator::Sub, req.num1, req.num2),
    {
        let s: i128 = req.num1 as i128 - req.num2 as i128;
        if s < i64::MIN as i128 || s > i64::MAX as i128 {
            Err(SvcError::Internal)
        } else {
            Ok(MathResponse { result: s as i64 })
        }
    }
}

pub struct MulImpl {}

impl MulImpl {
    /// The mul worker's handler: the product of the operands.
    pub fn mul(&self, req: BinaryOpRequest) -> (r: Result<MathResponse, SvcError>)
        ensures
            worker_result(r) == op_result(Operator::Mul, req.num1, req.num2),
    {
        proof {
            let a = req.num1 as int;
            let b = req.num2 as int;
            assert(-170141183460469231731687303715884105728 <= a * b
                <= 170141183460469231731687303715884105727) by (nonlinear_arith)
                requires
                    -9223372036854775808 <= a <= 9223372036854775807,
                    -9223372036854775808 <= b <= 9223372036854775807,
            ;
        }
        let s: i128 = req.num1 as i128 * req.num2 as i128;
        if s < i64::MIN as i128 || s > i64::MAX as i128 {
            Err(SvcError::Internal)
        } else {
            Ok(MathResponse { result: s as i64 })
        }
    }
}

pub struct DivImpl {}

impl DivImpl {
    /// The div worker's handler: the quotient truncated toward zero.
    /// A zero divisor is rejected as an invalid argument.
    pub fn div(&self, req: BinaryOpRequest) -> (r: Result<MathResponse, SvcError>)
        ensures
            worker_result(r) == op_result(Operator::Div, req.num1, req.num2),
    {
        let a = req.num1;
        let b = req.num2;
        if b == 0 {
            return Err(SvcError::InvalidArgument);
        }
        if a == i64::MIN && b == -1 {
            // the one quotient that does not fit the wire
            return Err(SvcError::Internal);
        }
        let am: u64 = if a < 0 {
            (-(a as i128)) as u64
        } else {
            a as u64
        };
        let bm: u64 = if b < 0 {
            (-(b as i128)) as u64
        } else {
            b as u64
        };
        proof {
            assert(am == abs_int(a as int));
            assert(bm == abs_int(b as int));
        }
        let q: u64 = am / bm;
        let same_sign = (a < 0) == (b < 0);
        proof {
            assert(q == abs_int(a as int) / abs_int(b as int));
            vstd::arithmetic::div_mod::lemma_fundamental_div_mod(am as int, bm as int);
            assert(q * bm <= am);
            assert(q <= am) by (nonlinear_arith)
                requires
                    q * bm <= am,
                    bm >= 1,
                    q >= 0,
            ;
            if a == i64::MIN && same_sign {
                assert(bm >= 2);
                assert(2 * q <= q * bm) by (nonlinear_arith)
                    requires
                        bm >= 2,
                        q >= 0,
                ;
                assert(q <= 4611686018427387904);
            }
        }
        if same_sign {
            Ok(MathResponse { result: q as i64 })
        } else {
            if q >= 9223372036854775808 {
                Ok(MathResponse { result: i64::MIN })
            } else {
                Ok(MathResponse { result: -(q as i64) })
            }
        }
    }
}

} // verus!
