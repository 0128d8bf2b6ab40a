//! Shared definitions: the error kinds every operation can report, the
//! flag values the instruction set gives a meaning to, and small verified
//! helpers on characters and strings.

use vstd::prelude::*;

verus! {

/// Comparison flag pushed by `cmp`: the two values were equal.
pub const FLAG_EQ: u8 = 0;

/// Comparison flag pushed by `cmp`: the value left on the stack was greater.
pub const FLAG_GR: u8 = 1;

/// Comparison flag pushed by `cmp`: the value left on the stack was less.
pub const FLAG_LE: u8 = 2;

/// Format flag for `put`: render the byte as decimal text.
pub const FLAG_FMT_NUMBER: u8 = 0;

/// Format flag for `put`: render the byte as one character.
pub const FLAG_FMT_CHAR: u8 = 1;

/// Format flag for `put`: render the byte as eight binary digits.
pub const FLAG_FMT_BITS: u8 = 2;

/// Mode flag for `read`: one byte of input.
pub const FLAG_READ_CHAR: u8 = 0;

/// Mode flag for `read`: one line of input.
pub const FLAG_READ_STR: u8 = 1;

/// Every condition that stops a run.  None of them is recoverable: the
/// machine reports the error and the caller decides how to present it.
#[derive(Clone, Copy, Debug, PartialEq, Eq, Structural)]
pub enum VmError {
    /// `pop` or a peek was asked of an empty stack, or an instruction
    /// found fewer values than it consumes.
    EmptyStack,
    /// The program holds no `#start` label.
    EntryPointNotFound,
    /// A line held no token or more than two tokens.
    InvalidArity,
    /// An instruction name matched nothing in the applicable arity table.
    InvalidInstruction,
    /// `put` popped a format flag that names no format.
    InvalidFormatFlag,
    /// `read` popped a mode flag that names no mode.
    InvalidReadFlag,
    /// `load` was given a digit string that holds no byte value.
    InvalidInteger,
    /// `div` popped a divisor of zero.
    DivisionByZero,
    /// An arithmetic instruction left the unsigned 8-bit domain.
    Overflow,
}

/// What `read` asks the caller to supply.
#[derive(Clone, Copy, Debug, PartialEq, Eq, Structural)]
pub enum ReadMode {
    /// A single byte.
    Char,
    /// A whole line of text.
    Str,
}

/// How a call to `Machine::execute` came to rest.
#[derive(Clone, Copy, Debug, PartialEq, Eq, Structural)]
pub enum ExecOutcome {
    /// The program halted or ran off its end.
    Done,
    /// A `read` instruction waits for input of the given mode.
    Need(ReadMode),
    /// The step budget of one call was spent while the run was still
    /// going; a further call carries on exactly where this one stopped.
    More,
}

/// The characters the tokenizer and the trimmer treat as whitespace:
/// space, horizontal tab, line feed, carriage return, vertical tab and
/// form feed.
pub open spec fn is_space_char(c: char) -> bool {
    c == ' ' || c == '\t' || c == '\n' || c == '\r' || c == '\u{000B}' || c == '\u{000C}'
}

/// Decides `is_space_char`.
pub fn is_space(c: char) -> (r: bool)
    ensures
        r == is_space_char(c),
{
    c == ' ' || c == '\t' || c == '\n' || c == '\r' || c == '\u{000B}' || c == '\u{000C}'
}

/// The decimal digits `'0'` through `'9'`.
pub open spec fn is_digit_char(c: char) -> bool {
    48 <= c as u32 && c as u32 <= 57
}

/// Decides `is_digit_char`.
pub fn is_digit(c: char) -> (r: bool)
    ensures
        r == is_digit_char(c),
{
    let u = c as u32;
    48 <= u && u <= 57
}

/// The byte a character stands for on the stack: its code point,
/// truncated to the low eight bits.
pub open spec fn char_byte(c: char) -> u8 {
    (c as u32) as u8
}

/// Computes `char_byte`.
pub fn to_byte(c: char) -> (r: u8)
    ensures
        r == char_byte(c),
{
    #[verifier::truncate] ((c as u32) as u8)
}

/// Character-for-character string equality, decided without trust:
/// true exactly when the two views are the same sequence.
pub fn str_eq(a: &str, b: &str) -> (r: bool)
    ensures
        r == (a@ == b@),
{
    let a_len = a.unicode_len();
    let b_len = b.unicode_len();
    if a_len != b_len {
        return false;
    }
    let mut i: usize = 0;
    while i < a_len
        invariant
            a_len == a@.len(),
            b_len == b@.len(),
            a_len == b_len,
            i <= a_len,
            forall|j: int| 0 <= j < i ==> a@[j] == b@[j],
        decreases a_len - i,
    {
        if a.get_char(i) != b.get_char(i) {
            return false;
        }
        i += 1;
    }
    proof {
        assert(a@ =~= b@);
    }
    true
}

} // verus!
