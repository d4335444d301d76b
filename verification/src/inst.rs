//! The operation alphabet of the machine, and the lexing of source text
//! into raw unit operations.

use vstd::prelude::*;

verus! {

/// One primitive operation of the tape machine. The four counted variants
/// carry how many unit operations they stand for, so that a merged run of
/// identical commands executes in one step.
#[derive(Debug, PartialEq, Eq, Structural, Copy, Clone)]
pub enum Instructions {
    /// Move the pointer forward by the count, wrapping over the tape end.
    IncrementPointer(usize),
    /// Move the pointer backward by the count, wrapping below index zero.
    DecrementPointer(usize),
    /// Add the count to the current cell, wrapping at 256.
    IncrementValue(usize),
    /// Subtract the count from the current cell, wrapping below zero.
    DecrementValue(usize),
    /// Loop start marker.
    BeginLoop,
    /// Loop end marker.
    EndLoop,
    /// Read one byte from the input stream into the current cell.
    ReadChar,
    /// Write the current cell to the output stream.
    PrintChar,
    /// Set the current cell to zero in one step. Never lexed from source;
    /// produced only by the optimizer for a self-zeroing loop.
    SetZero,
}

/// The unit operation denoted by one source character, if any; every other
/// character is a comment and denotes nothing.
pub open spec fn char_to_inst(c: char) -> Option<Instructions> {
    if c == '>' {
        Some(Instructions::IncrementPointer(1))
    } else if c == '<' {
        Some(Instructions::DecrementPointer(1))
    } else if c == '+' {
        Some(Instructions::IncrementValue(1))
    } else if c == '-' {
        Some(Instructions::DecrementValue(1))
    } else if c == '[' {
        Some(Instructions::BeginLoop)
    } else if c == ']' {
        Some(Instructions::EndLoop)
    } else if c == ',' {
        Some(Instructions::ReadChar)
    } else if c == '.' {
        Some(Instructions::PrintChar)
    } else {
        None
    }
}

/// The raw operation sequence lexed from source text: the commands in source
/// order, comments dropped, every counted operation carrying count 1.
pub open spec fn lex(s: Seq<char>) -> Seq<Instructions>
    decreases s.len(),
{
    if s.len() == 0 {
        Seq::<Instructions>::empty()
    } else {
        lex(s.drop_last()) + (match char_to_inst(s.last()) {
            Some(op) => seq![op],
            None => Seq::<Instructions>::empty(),
        })
    }
}

/// Holds of an operation as lexing produces it: loop markers and I/O carry no
/// count, and every counted operation carries exactly 1.
pub open spec fn is_unit(op: Instructions) -> bool {
    match op {
        Instructions::IncrementPointer(n) => n == 1,
        Instructions::DecrementPointer(n) => n == 1,
        Instructions::IncrementValue(n) => n == 1,
        Instructions::DecrementValue(n) => n == 1,
        Instructions::SetZero => false,
        _ => true,
    }
}

/// Lexing yields only unit operations.
pub proof fn lemma_lex_units(s: Seq<char>)
    ensures
        forall|i: int| 0 <= i < lex(s).len() ==> is_unit(#[trigger] lex(s)[i]),
    decreases s.len(),
{
    if s.len() > 0 {
        lemma_lex_units(s.drop_last());
        assert forall|i: int| 0 <= i < lex(s).len() implies is_unit(#[trigger] lex(s)[i]) by {
            if i < lex(s.drop_last()).len() {
                assert(lex(s)[i] == lex(s.drop_last())[i]);
            }
        }
    }
}

} // verus!
