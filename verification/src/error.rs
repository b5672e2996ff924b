use vstd::prelude::*;

verus! {

/// Why a helper refuses its argument.
#[derive(Debug, Clone, Copy, PartialEq, Eq, Structural)]
pub enum HelperError {
    /// The argument of `partitions` is not a tuple.
    NotTuple,
    /// Renumbering the variables of an expression needs more than 64 of them.
    TooManyVariables,
    /// A tuple would have more than 255 elements.
    TupleArityExceeds255,
    /// A tuple would have between 64 and 255 elements, which one arity byte cannot hold.
    TupleArityUnencodable,
    /// More than 64 variables would be introduced.
    VariableLimit,
    /// `vars_to_indices` met a reference to the variable before the first one.
    VarRefOutside,
    /// `factorial` got a negative number.
    FactorialNegative,
    /// The factorial does not fit in an `i64`.
    FactorialOverflow,
    /// `falling_factorial` got a negative number.
    FallingFactorialNegative,
    /// `falling_factorial` got `k > n`.
    FallingFactorialKGreaterThanN,
    /// The falling factorial does not fit in an `i64`.
    FallingFactorialOverflow,
}

} // verus!
