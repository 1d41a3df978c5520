//! Arithmetic on native 64-bit integers, carried out by the bit circuits:
//! each operand is encoded as a `Number`, combined, and decoded again.

use vstd::prelude::*;
use crate::model::{div_trunc, wrap};
use crate::number::{ArithmeticError, Number};

verus! {

/// The result of an arithmetic operation on native integers.
pub type OperationResult = Result<i64, ArithmeticError>;

/// Sum, wrapping on overflow as native two's-complement addition does.
pub fn add(x: i64, y: i64) -> (r: OperationResult)
    ensures
        r matches Ok(v) && v == wrap(x + y),
{
    Ok(Number::from_int(x).add(Number::from_int(y)).decode())
}

/// Difference, wrapping on overflow.
pub fn subtract(x: i64, y: i64) -> (r: OperationResult)
    ensures
        r matches Ok(v) && v == wrap(x - y),
{
    Ok(Number::from_int(x).subtract(Number::from_int(y)).decode())
}

/// Product, wrapping on overflow.
pub fn multiply(x: i64, y: i64) -> (r: OperationResult)
    ensures
        r matches Ok(v) && v == wrap(x * y),
{
    Ok(Number::from_int(x).multiply(Number::from_int(y)).decode())
}

/// Quotient truncated toward zero; dividing by zero is an error.
pub fn divide(x: i64, y: i64) -> (r: OperationResult)
    ensures
        y == 0 <==> r is Err,
        r matches Err(e) ==> e == ArithmeticError::DivisionByZero,
        r matches Ok(v) ==> v == wrap(div_trunc(x as int, y as int)),
{
    match Number::from_int(x).divide(Number::from_int(y)) {
        Ok(q) => Ok(q.decode()),
        Err(e) => Err(e),
    }
}

} // verus!
