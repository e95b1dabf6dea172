use vstd::prelude::*;

verus! {

/// Why a translation stopped.
#[derive(Debug, Clone, Copy, PartialEq, Eq, Structural)]
pub enum AsmError {
    /// A `comp`, `dest` or `jump` field that its table does not list.
    UnknownMnemonic,
    /// A numeric A-instruction operand that is not all decimal digits.
    BadInteger,
    /// No RAM address is left for a new variable.
    SymbolSpaceExhausted,
    /// An A-instruction without an operand, or a C-instruction lacking `=` or `;`.
    MalformedInstruction,
    /// An A-instruction whose value does not fit in fifteen bits.
    AddressOutOfRange,
}

} // verus!
