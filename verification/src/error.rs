use vstd::prelude::*;

verus! {

/// Every failure the library can report. Parse errors carry the position
/// (a line index for the verbose form, a byte offset for the compact form)
/// and, where one exists, the offending magnitude, so a caller can render
/// a diagnostic.
#[derive(Copy, Clone, Debug, PartialEq, Eq, Structural)]
pub enum Error {
    /// The task identifier matches no known task.
    UnknownTask,
    /// The task exists but has no test-vector generation rule.
    TaskNotImplemented,
    /// A repetition count token was not a decimal number that fits in 64 bits.
    InvalidNumber { line: usize },
    /// A verbose-form repetition count reached the tape capacity.
    RepetitionTooLarge { value: u64, line: usize },
    /// A verbose-form line holds no recognized instruction.
    UnknownInstruction { line: usize },
    /// A compact-form repetition count reached the tape capacity.
    RepeatTooLargeAt { value: u64, offset: usize },
    /// A repetition count preceded a Load, which takes none.
    RepeatOnLoad { value: u64, offset: usize },
    /// A repetition count preceded an Inv, which takes none.
    RepeatOnInv { value: u64, offset: usize },
    /// A compact-form byte denotes no instruction.
    InvalidCharacter { offset: usize },
    /// A repetition count stood at the end of the compact form.
    DanglingRepeat { value: u64 },
    /// The program's total weighted cost is over the execution ceiling.
    CostCeiling,
}

} // verus!
