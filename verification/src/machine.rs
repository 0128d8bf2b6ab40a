//! The executor: the machine state, the exact effect of every
//! instruction stated as a specification, and the fetch-decode-execute
//! loop proved to realize that specification step by step.
//!
//! Output never leaves the machine: printing instructions append the
//! rendered bytes to an output buffer the caller drains.  Input never
//! enters by itself: a `read` instruction suspends the run with a
//! request, and the caller hands the bytes in and resumes.

use crate::defs::{
    char_byte, is_digit_char, str_eq, ExecOutcome, ReadMode, VmError, FLAG_EQ, FLAG_FMT_BITS,
    FLAG_FMT_CHAR, FLAG_FMT_NUMBER, FLAG_GR, FLAG_LE, FLAG_READ_CHAR, FLAG_READ_STR,
};
use crate::source::{is_label_line, jump_target, labels_of, Source};
use crate::stack::Stack;
use vstd::prelude::*;

verus! {

/// The machine state the contracts speak of: the stack, the cursor, the
/// halt flag and the output gathered so far.  The program itself is not
/// part of the state; it never changes during a run.
#[verifier::ext_equal]
pub ghost struct StateV {
    pub stack: Seq<u8>,
    pub ip: int,
    pub halt: bool,
    pub output: Seq<u8>,
}

/// `s` with another stack.
pub open spec fn with_stack(s: StateV, stack: Seq<u8>) -> StateV {
    StateV { stack, ip: s.ip, halt: s.halt, output: s.output }
}

/// `s` with the cursor advanced by one line.
pub open spec fn advanced(s: StateV) -> StateV {
    StateV { stack: s.stack, ip: s.ip + 1, halt: s.halt, output: s.output }
}

/// `s` with the cursor moved to `ip`.
pub open spec fn jumped(s: StateV, ip: int) -> StateV {
    StateV { stack: s.stack, ip, halt: s.halt, output: s.output }
}

/// `s` with the halt flag set.
pub open spec fn halted(s: StateV) -> StateV {
    StateV { stack: s.stack, ip: s.ip, halt: true, output: s.output }
}

/// What executing one line does: one more state, a request for input,
/// or a fatal error.  An error always carries the state unchanged: a
/// failing instruction leaves the stack as it found it.
#[verifier::ext_equal]
pub ghost enum StepV {
    /// The line ran; execution goes on in this state.
    Run(StateV),
    /// A `read` instruction waits for input of this mode.
    Need(ReadMode, StateV),
    /// A fatal error.
    Fail(VmError, StateV),
}

/// The decimal rendering of a byte, as ASCII digit bytes without
/// leading zeroes.
pub open spec fn dec_digits(v: u8) -> Seq<u8> {
    if v >= 100 {
        seq![(48 + v / 100) as u8, (48 + (v / 10) % 10) as u8, (48 + v % 10) as u8]
    } else if v >= 10 {
        seq![(48 + v / 10) as u8, (48 + v % 10) as u8]
    } else {
        seq![(48 + v) as u8]
    }
}

/// The binary rendering of a byte: eight ASCII digit bytes, most
/// significant bit first.
pub open spec fn bit_digits(v: u8) -> Seq<u8> {
    Seq::new(
        8,
        |i: int|
            if (v >> ((7 - i) as u8)) & 1 == 1 {
                49u8
            } else {
                48u8
            },
    )
}

/// What `put` appends to the output for a byte under a valid format
/// flag: decimal text, the byte itself, or binary text.
pub open spec fn formatted(v: u8, format: u8) -> Seq<u8> {
    if format == FLAG_FMT_NUMBER {
        dec_digits(v)
    } else if format == FLAG_FMT_CHAR {
        seq![v]
    } else {
        bit_digits(v)
    }
}

/// The flag `cmp` pushes: how the value left on the stack compares to
/// the value popped.
pub open spec fn cmp_flag(a: u8, b: u8) -> u8 {
    if a == b {
        FLAG_EQ
    } else if a > b {
        FLAG_GR
    } else {
        FLAG_LE
    }
}

/// The effect of the seven two-operand instructions.  Each pops `b`,
/// then `a`, and pushes the result.  Arithmetic stays within the
/// unsigned 8-bit domain: leaving it is a fatal error, never a wrap.
pub open spec fn binary_effect(op: Seq<char>, s: StateV) -> StepV {
    if s.stack.len() < 2 {
        StepV::Fail(VmError::EmptyStack, s)
    } else {
        let a = s.stack[s.stack.len() - 2];
        let b = s.stack.last();
        let rest = s.stack.take(s.stack.len() - 2);
        if op == "add"@ {
            if a + b > 255 {
                StepV::Fail(VmError::Overflow, s)
            } else {
                StepV::Run(with_stack(s, rest.push((a + b) as u8)))
            }
        } else if op == "sub"@ {
            if a < b {
                StepV::Fail(VmError::Overflow, s)
            } else {
                StepV::Run(with_stack(s, rest.push((a - b) as u8)))
            }
        } else if op == "mul"@ {
            if a * b > 255 {
                StepV::Fail(VmError::Overflow, s)
            } else {
                StepV::Run(with_stack(s, rest.push((a * b) as u8)))
            }
        } else if op == "div"@ {
            if b == 0 {
                StepV::Fail(VmError::DivisionByZero, s)
            } else {
                StepV::Run(with_stack(s, rest.push(a / b)))
            }
        } else if op == "and"@ {
            StepV::Run(with_stack(s, rest.push(a & b)))
        } else if op == "or"@ {
            StepV::Run(with_stack(s, rest.push(a | b)))
        } else if op == "xor"@ {
            StepV::Run(with_stack(s, rest.push(a ^ b)))
        } else {
            StepV::Fail(VmError::InvalidInstruction, s)
        }
    }
}

/// The effect of `cmp`: pop the top value, compare the value now on top
/// against it, and push the comparison flag above the value that stays.
pub open spec fn cmp_effect(s: StateV) -> StepV {
    if s.stack.len() < 2 {
        StepV::Fail(VmError::EmptyStack, s)
    } else {
        let a = s.stack[s.stack.len() - 2];
        let b = s.stack.last();
        StepV::Run(with_stack(s, s.stack.drop_last().push(cmp_flag(a, b))))
    }
}

/// The effect of `put`: pop the format flag, render the value now on
/// top — which stays on the stack — and append the rendering to the
/// output.
pub open spec fn put_effect(s: StateV) -> StepV {
    if s.stack.len() < 2 {
        StepV::Fail(VmError::EmptyStack, s)
    } else {
        let format = s.stack.last();
        let value = s.stack[s.stack.len() - 2];
        if format == FLAG_FMT_NUMBER || format == FLAG_FMT_CHAR || format == FLAG_FMT_BITS {
            StepV::Run(
                StateV {
                    stack: s.stack.drop_last(),
                    ip: s.ip,
                    halt: s.halt,
                    output: s.output + formatted(value, format),
                },
            )
        } else {
            StepV::Fail(VmError::InvalidFormatFlag, s)
        }
    }
}

/// The effect of `read`: pop the mode flag and suspend the run with a
/// request for input of that mode.
pub open spec fn read_effect(s: StateV) -> StepV {
    if s.stack.len() < 1 {
        StepV::Fail(VmError::EmptyStack, s)
    } else {
        let mode = s.stack.last();
        if mode == FLAG_READ_CHAR {
            StepV::Need(ReadMode::Char, with_stack(s, s.stack.drop_last()))
        } else if mode == FLAG_READ_STR {
            StepV::Need(ReadMode::Str, with_stack(s, s.stack.drop_last()))
        } else {
            StepV::Fail(VmError::InvalidReadFlag, s)
        }
    }
}

/// A `"`-delimited argument: at least the two quotes, one at each end.
pub open spec fn is_quoted(arg: Seq<char>) -> bool {
    arg.len() >= 2 && arg[0] == '"' && arg.last() == '"'
}

/// The bytes a quoted argument pushes: its characters between the
/// quotes, each truncated to a byte, in order.
pub open spec fn quoted_bytes(arg: Seq<char>) -> Seq<u8> {
    arg.subrange(1, arg.len() - 1).map_values(|c: char| char_byte(c))
}

/// Every character is a decimal digit.  Holds vacuously of an empty
/// argument, which still parses to no byte value.
pub open spec fn all_digits(arg: Seq<char>) -> bool {
    forall|i: int| 0 <= i < arg.len() ==> is_digit_char(#[trigger] arg[i])
}

/// The number a digit string denotes in base ten.
pub open spec fn digits_val(arg: Seq<char>) -> int
    decreases arg.len(),
{
    if arg.len() == 0 {
        0
    } else {
        10 * digits_val(arg.drop_last()) + (arg.last() as u32 - 48)
    }
}

/// The effect of `load`: a quoted argument pushes its characters as
/// bytes in order; a digit argument that fits in a byte pushes that one
/// value; a digit argument that fits in no byte is a fatal error; any
/// other argument does nothing.
pub open spec fn load_effect(arg: Seq<char>, s: StateV) -> StepV {
    if is_quoted(arg) {
        StepV::Run(with_stack(s, s.stack + quoted_bytes(arg)))
    } else if all_digits(arg) {
        if arg.len() == 0 || digits_val(arg) > 255 {
            StepV::Fail(VmError::InvalidInteger, s)
        } else {
            StepV::Run(with_stack(s, s.stack.push(digits_val(arg) as u8)))
        }
    } else {
        StepV::Run(s)
    }
}

/// The effect of a jump: the cursor moves onto the last label line
/// carrying `name`, so the following fetch resumes after it.  A name no
/// label carries moves nothing.
pub open spec fn jump_effect(lines: Seq<Seq<Seq<char>>>, name: Seq<char>, s: StateV) -> StepV {
    match jump_target(labels_of(lines), name) {
        Some(ix) => StepV::Run(jumped(s, ix)),
        None => StepV::Run(s),
    }
}

/// The effect of a zero-argument instruction, by name.
pub open spec fn inst0_effect(op: Seq<char>, s: StateV) -> StepV {
    if op == "add"@ || op == "sub"@ || op == "mul"@ || op == "div"@ {
        binary_effect(op, s)
    } else if op == "put"@ {
        put_effect(s)
    } else if op == "read"@ {
        read_effect(s)
    } else if op == "cmp"@ {
        cmp_effect(s)
    } else if op == "and"@ || op == "or"@ || op == "xor"@ {
        binary_effect(op, s)
    } else if op == "not"@ {
        if s.stack.len() < 1 {
            StepV::Fail(VmError::EmptyStack, s)
        } else {
            StepV::Run(with_stack(s, s.stack.drop_last().push(!s.stack.last())))
        }
    } else if op == "copy"@ {
        if s.stack.len() < 1 {
            StepV::Fail(VmError::EmptyStack, s)
        } else {
            StepV::Run(with_stack(s, s.stack.push(s.stack.last())))
        }
    } else if op == "drop"@ {
        if s.stack.len() < 1 {
            StepV::Fail(VmError::EmptyStack, s)
        } else {
            StepV::Run(with_stack(s, s.stack.drop_last()))
        }
    } else if op == "halt"@ {
        StepV::Run(halted(s))
    } else {
        StepV::Fail(VmError::InvalidInstruction, s)
    }
}

/// The effect of a one-argument instruction, by name.  The conditional
/// jumps peek the comparison flag and leave it on the stack.
pub open spec fn inst1_effect(
    lines: Seq<Seq<Seq<char>>>,
    op: Seq<char>,
    arg: Seq<char>,
    s: StateV,
) -> StepV {
    if op == "load"@ {
        load_effect(arg, s)
    } else if op == "jmp"@ {
        jump_effect(lines, arg, s)
    } else if op == "jeq"@ || op == "jne"@ || op == "jgr"@ || op == "jle"@ {
        if s.stack.len() < 1 {
            StepV::Fail(VmError::EmptyStack, s)
        } else {
            let flag = s.stack.last();
            let taken = if op == "jeq"@ {
                flag == FLAG_EQ
            } else if op == "jne"@ {
                flag == FLAG_GR || flag == FLAG_LE
            } else if op == "jgr"@ {
                flag == FLAG_GR
            } else {
                flag == FLAG_LE
            };
            if taken {
                jump_effect(lines, arg, s)
            } else {
                StepV::Run(s)
            }
        }
    } else {
        StepV::Fail(VmError::InvalidInstruction, s)
    }
}

/// The effect of one fetched line: a label line is skipped, one token
/// is a zero-argument instruction, two tokens are an instruction and
/// its argument, and anything else is a fatal error.
pub open spec fn line_effect(lines: Seq<Seq<Seq<char>>>, line: Seq<Seq<char>>, s: StateV) -> StepV {
    if is_label_line(line) {
        StepV::Run(s)
    } else if line.len() == 1 {
        inst0_effect(line[0], s)
    } else if line.len() == 2 {
        inst1_effect(lines, line[0], line[1], s)
    } else {
        StepV::Fail(VmError::InvalidArity, s)
    }
}

/// How a whole run can stand after some number of steps.
#[verifier::ext_equal]
pub ghost enum RunV {
    /// More lines remain to execute.
    Running(StateV),
    /// The program halted or ran off its end.
    Done(StateV),
    /// A `read` instruction waits for input.
    Need(ReadMode, StateV),
    /// A fatal error ended the run.
    Fail(VmError, StateV),
}

/// One step of the fetch loop: the cursor advances past the end and the
/// run is done; a fetched line while the halt flag stands is not
/// executed; otherwise the fetched line takes effect on the advanced
/// state.
pub open spec fn step(lines: Seq<Seq<Seq<char>>>, s: StateV) -> RunV {
    if s.ip >= lines.len() {
        RunV::Done(s)
    } else if s.ip + 1 == lines.len() {
        RunV::Done(advanced(s))
    } else if s.halt {
        RunV::Done(advanced(s))
    } else {
        match line_effect(lines, lines[s.ip + 1], advanced(s)) {
            StepV::Run(s1) => RunV::Running(s1),
            StepV::Need(mode, s1) => RunV::Need(mode, s1),
            StepV::Fail(e, s1) => RunV::Fail(e, s1),
        }
    }
}

/// The run after `n` steps from `s`: stepping stops as soon as the run
/// is no longer running.
pub open spec fn run_n(lines: Seq<Seq<Seq<char>>>, s: StateV, n: nat) -> RunV
    decreases n,
{
    if n == 0 {
        RunV::Running(s)
    } else {
        match run_n(lines, s, (n - 1) as nat) {
            RunV::Running(s1) => step(lines, s1),
            r => r,
        }
    }
}

/// The step an execution function reports: continuing, a request for
/// input, or an error, each with the state it leaves behind.
pub open spec fn result_step(r: Result<Option<ReadMode>, VmError>, s: StateV) -> StepV {
    match r {
        Ok(None) => StepV::Run(s),
        Ok(Some(mode)) => StepV::Need(mode, s),
        Err(e) => StepV::Fail(e, s),
    }
}

/// The rest a whole run comes to: done, waiting for input, or failed,
/// each with the state it leaves behind.
pub open spec fn result_run(r: Result<ExecOutcome, VmError>, s: StateV) -> RunV {
    match r {
        Ok(ExecOutcome::Done) => RunV::Done(s),
        Ok(ExecOutcome::Need(mode)) => RunV::Need(mode, s),
        Ok(ExecOutcome::More) => RunV::Running(s),
        Err(e) => RunV::Fail(e, s),
    }
}

/// The machine: the stack, the program with its cursor, the halt flag,
/// and the output gathered so far.
pub struct Machine {
    pub stack: Stack,
    pub source: Source,
    pub halt: bool,
    pub output: Vec<u8>,
}

impl Machine {
    /// The program is well formed; nothing else is constrained.
    pub open spec fn wf(&self) -> bool {
        self.source.wf()
    }

    /// The machine's state, as the contracts speak of it.
    pub open spec fn st(&self) -> StateV {
        StateV { stack: self.stack@, ip: self.source.cur(), halt: self.halt, output: self.output@ }
    }

    /// The program's lines.
    pub open spec fn lines(&self) -> Seq<Seq<Seq<char>>> {
        self.source.lines()
    }

    /// A machine over the given stack and program, not yet halted, with
    /// nothing printed.
    pub fn new(stack: Stack, source: Source) -> (m: Machine)
        ensures
            m.stack == stack,
            m.source == source,
            m.halt == false,
            m.output@ == Seq::<u8>::empty(),
    {
        Machine { stack, source, halt: false, output: Vec::new() }
    }

    /// Answers a `Char` request: pushes the byte that was read.
    pub fn provide_char(&mut self, value: u8)
        requires
            old(self).wf(),
        ensures
            final(self).wf(),
            final(self).lines() == old(self).lines(),
            final(self).st() == with_stack(old(self).st(), old(self).st().stack.push(value)),
    {
        self.stack.push(value);
    }

    /// Answers a `Str` request: pushes the characters of the line that
    /// was read as bytes, in reverse order, so that the first character
    /// ends on top and consumers pop the line in reading order.
    pub fn provide_line(&mut self, line: &str)
        requires
            old(self).wf(),
        ensures
            final(self).wf(),
            final(self).lines() == old(self).lines(),
            final(self).st() == with_stack(
                old(self).st(),
                old(self).st().stack + line@.map_values(|c: char| char_byte(c)).reverse(),
            ),
    {
        let ghost pushed = line@.map_values(|c: char| char_byte(c)).reverse();
        let len = line.unicode_len();
        let mut i: usize = len;
        proof {
            assert(self.stack@ =~= old(self).stack@ + pushed.take(0));
        }
        while i > 0
            invariant
                len == line@.len(),
                i <= len,
                pushed == line@.map_values(|c: char| char_byte(c)).reverse(),
                self.stack@ == old(self).stack@ + pushed.take(len - i),
                self.source == old(self).source,
                self.halt == old(self).halt,
                self.output == old(self).output,
            decreases i,
        {
            i -= 1;
            let b = crate::defs::to_byte(line.get_char(i));
            self.stack.push(b);
            proof {
                assert(pushed[len - i - 1] == b);
                assert(self.stack@ =~= old(self).stack@ + pushed.take(len - i));
            }
        }
        proof {
            assert(pushed.take(len as int) =~= pushed);
        }
    }
}

/// Appends the decimal rendering of `v`.
fn append_decimal(out: &mut Vec<u8>, v: u8)
    ensures
        final(out)@ == old(out)@ + dec_digits(v),
{
    if v >= 100 {
        out.push(48 + v / 100);
        out.push(48 + (v / 10) % 10);
        out.push(48 + v % 10);
    } else if v >= 10 {
        out.push(48 + v / 10);
        out.push(48 + v % 10);
    } else {
        out.push(48 + v);
    }
    proof {
        assert(out@ =~= old(out)@ + dec_digits(v));
    }
}

/// Appends the binary rendering of `v`.
fn append_bits(out: &mut Vec<u8>, v: u8)
    ensures
        final(out)@ == old(out)@ + bit_digits(v),
{
    let mut k: usize = 0;
    proof {
        assert(out@ =~= old(out)@ + bit_digits(v).take(0));
    }
    while k < 8
        invariant
            k <= 8,
            out@ == old(out)@ + bit_digits(v).take(k as int),
        decreases 8 - k,
    {
        let sh: u8 = (7 - k) as u8;
        let bit = (v >> sh) & 1;
        out.push(
            if bit == 1 {
                49
            } else {
                48
            },
        );
        proof {
            assert(sh == (7 - k as int) as u8);
            assert(bit_digits(v)[k as int] == (if bit == 1 {
                49u8
            } else {
                48u8
            }));
            assert(out@ =~= old(out)@ + bit_digits(v).take(k as int + 1));
        }
        k += 1;
    }
    proof {
        assert(bit_digits(v).take(8) =~= bit_digits(v));
    }
}

/// Decides whether a `load` argument is a quoted string.
pub fn is_string(parameter: &String) -> (r: bool)
    ensures
        r == is_quoted(parameter@),
{
    let s = parameter.as_str();
    let len = s.unicode_len();
    len >= 2 && s.get_char(0) == '"' && s.get_char(len - 1) == '"'
}

/// The bytes a quoted `load` argument pushes, in order.
pub fn parse_string(parameter: &String) -> (r: Vec<u8>)
    requires
        is_quoted(parameter@),
    ensures
        r@ == quoted_bytes(parameter@),
{
    let s = parameter.as_str();
    let len = s.unicode_len();
    let mut bytes: Vec<u8> = Vec::new();
    let mut i: usize = 1;
    proof {
        assert(bytes@ =~= parameter@.subrange(1, 1).map_values(|c: char| char_byte(c)));
    }
    while i < len - 1
        invariant
            s@ == parameter@,
            len == s@.len(),
            len >= 2,
            1 <= i <= len - 1,
            bytes@ == parameter@.subrange(1, i as int).map_values(|c: char| char_byte(c)),
        decreases len - i,
    {
        let b = crate::defs::to_byte(s.get_char(i));
        bytes.push(b);
        proof {
            assert(bytes@ =~= parameter@.subrange(1, i as int + 1).map_values(
                |c: char| char_byte(c),
            ));
        }
        i += 1;
    }
    bytes
}

/// Decides whether a `load` argument is all decimal digits.
pub fn is_integer(parameter: &String) -> (r: bool)
    ensures
        r == all_digits(parameter@),
{
    let s = parameter.as_str();
    let len = s.unicode_len();
    let mut i: usize = 0;
    while i < len
        invariant
            s@ == parameter@,
            len == s@.len(),
            i <= len,
            forall|j: int| 0 <= j < i ==> is_digit_char(#[trigger] s@[j]),
        decreases len - i,
    {
        if !crate::defs::is_digit(s.get_char(i)) {
            return false;
        }
        i += 1;
    }
    true
}

/// A digit string denotes a value of at least zero.
proof fn lemma_digits_val_nonneg(s: Seq<char>)
    requires
        all_digits(s),
    ensures
        digits_val(s) >= 0,
    decreases s.len(),
{
    if s.len() > 0 {
        assert(all_digits(s.drop_last()));
        lemma_digits_val_nonneg(s.drop_last());
    }
}

/// Reading more digits never shrinks the denoted value.
proof fn lemma_digits_val_monotonic(s: Seq<char>, i: int)
    requires
        all_digits(s),
        0 <= i <= s.len(),
    ensures
        digits_val(s.take(i)) <= digits_val(s),
    decreases s.len() - i,
{
    if i < s.len() {
        lemma_digits_val_monotonic(s, i + 1);
        assert(s.take(i + 1).drop_last() =~= s.take(i));
        assert(s.take(i + 1).last() == s[i]);
        assert(all_digits(s.take(i)));
        lemma_digits_val_nonneg(s.take(i));
    } else {
        assert(s.take(i) =~= s);
    }
}

/// The byte value of an all-digit `load` argument, or `InvalidInteger`
/// when the argument is empty or denotes more than a byte holds.
pub fn parse_integer(parameter: &String) -> (r: Result<u8, VmError>)
    requires
        all_digits(parameter@),
    ensures
        match r {
            Ok(v) => parameter@.len() > 0 && digits_val(parameter@) == v as int,
            Err(e) => e == VmError::InvalidInteger && (parameter@.len() == 0 || digits_val(
                parameter@) > 255),
        },
{
    let s = parameter.as_str();
    let len = s.unicode_len();
    if len == 0 {
        return Err(VmError::InvalidInteger);
    }
    let mut acc: u32 = 0;
    let mut i: usize = 0;
    proof {
        assert(parameter@.take(0) =~= Seq::<char>::empty());
    }
    while i < len
        invariant
            s@ == parameter@,
            len == s@.len(),
            i <= len,
            all_digits(parameter@),
            acc <= 255,
            acc as int == digits_val(parameter@.take(i as int)),
        decreases len - i,
    {
        let ghost i0 = i as int;
        let c = s.get_char(i);
        let d = c as u32 - 48;
        acc = acc * 10 + d;
        proof {
            assert(parameter@.take(i0 + 1).drop_last() =~= parameter@.take(i0));
            assert(parameter@.take(i0 + 1).last() == parameter@[i0]);
            assert(acc as int == digits_val(parameter@.take(i0 + 1)));
        }
        if acc > 255 {
            proof {
                lemma_digits_val_monotonic(parameter@, i0 + 1);
            }
            return Err(VmError::InvalidInteger);
        }
        i += 1;
    }
    proof {
        assert(parameter@.take(len as int) =~= parameter@);
    }
    Ok(acc as u8)
}

impl Machine {
    /// Runs `cmp`: pops the top value, compares the value now on top
    /// against it, and pushes the comparison flag.
    pub fn compare(&mut self) -> (r: Result<(), VmError>)
        requires
            old(self).wf(),
        ensures
            final(self).wf(),
            final(self).lines() == old(self).lines(),
            cmp_effect(old(self).st()) == (match r {
                Ok(_) => StepV::Run(final(self).st()),
                Err(e) => StepV::Fail(e, final(self).st()),
            }),
    {
        let n = self.stack.len();
        if n < 2 {
            return Err(VmError::EmptyStack);
        }
        let a = self.stack.get(n - 2);
        let b = self.stack.get(n - 1);
        let flag = if a == b {
            FLAG_EQ
        } else if a > b {
            FLAG_GR
        } else {
            FLAG_LE
        };
        let _ = self.stack.pop();
        self.stack.push(flag);
        proof {
            assert(self.stack@ =~= old(self).stack@.drop_last().push(flag));
        }
        Ok(())
    }

    /// Runs `put`: pops the format flag, renders the value now on top —
    /// which stays — and appends the rendering to the output.
    pub fn put(&mut self) -> (r: Result<(), VmError>)
        requires
            old(self).wf(),
        ensures
            final(self).wf(),
            final(self).lines() == old(self).lines(),
            put_effect(old(self).st()) == (match r {
                Ok(_) => StepV::Run(final(self).st()),
                Err(e) => StepV::Fail(e, final(self).st()),
            }),
    {
        let n = self.stack.len();
        if n < 2 {
            return Err(VmError::EmptyStack);
        }
        let format = self.stack.get(n - 1);
        let value = self.stack.get(n - 2);
        if format == FLAG_FMT_NUMBER {
            let _ = self.stack.pop();
            append_decimal(&mut self.output, value);
        } else if format == FLAG_FMT_CHAR {
            let _ = self.stack.pop();
            self.output.push(value);
            proof {
                assert(self.output@ =~= old(self).output@ + formatted(value, FLAG_FMT_CHAR));
            }
        } else if format == FLAG_FMT_BITS {
            let _ = self.stack.pop();
            append_bits(&mut self.output, value);
        } else {
            return Err(VmError::InvalidFormatFlag);
        }
        Ok(())
    }

    /// Runs `read` up to the point where input is needed: pops the mode
    /// flag and reports which kind of input the caller must supply.
    pub fn read(&mut self) -> (r: Result<ReadMode, VmError>)
        requires
            old(self).wf(),
        ensures
            final(self).wf(),
            final(self).lines() == old(self).lines(),
            read_effect(old(self).st()) == (match r {
                Ok(mode) => StepV::Need(mode, final(self).st()),
                Err(e) => StepV::Fail(e, final(self).st()),
            }),
    {
        let n = self.stack.len();
        if n < 1 {
            return Err(VmError::EmptyStack);
        }
        let mode = self.stack.get(n - 1);
        if mode == FLAG_READ_CHAR {
            let _ = self.stack.pop();
            Ok(ReadMode::Char)
        } else if mode == FLAG_READ_STR {
            let _ = self.stack.pop();
            Ok(ReadMode::Str)
        } else {
            Err(VmError::InvalidReadFlag)
        }
    }

    /// Runs a jump: moves the cursor onto the last label line carrying
    /// `parameter`, or nowhere when no label does.
    pub fn jump(&mut self, parameter: &str)
        requires
            old(self).wf(),
        ensures
            final(self).wf(),
            final(self).lines() == old(self).lines(),
            jump_effect(old(self).lines(), parameter@, old(self).st()) == StepV::Run(
                final(self).st()),
    {
        match self.source.find_label(parameter) {
            Some(ix) => {
                self.source.mut_ip(ix);
            },
            None => {},
        }
    }

    /// Runs one zero-argument instruction by name.
    pub fn instruction(&mut self, instruction: &String) -> (r: Result<Option<ReadMode>, VmError>)
        requires
            old(self).wf(),
        ensures
            final(self).wf(),
            final(self).lines() == old(self).lines(),
            inst0_effect(instruction@, old(self).st()) == result_step(r, final(self).st()),
    {
        let op = instruction.as_str();
        if str_eq(op, "add") {
            let n = self.stack.len();
            if n < 2 {
                return Err(VmError::EmptyStack);
            }
            let a = self.stack.get(n - 2);
            let b = self.stack.get(n - 1);
            let sum = a as u16 + b as u16;
            if sum > 255 {
                return Err(VmError::Overflow);
            }
            let _ = self.stack.pop();
            let _ = self.stack.pop();
            self.stack.push(sum as u8);
            proof {
                assert(self.stack@ =~= old(self).stack@.take(n as int - 2).push((a + b) as u8));
            }
            Ok(None)
        } else if str_eq(op, "sub") {
            let n = self.stack.len();
            if n < 2 {
                return Err(VmError::EmptyStack);
            }
            let a = self.stack.get(n - 2);
            let b = self.stack.get(n - 1);
            if a < b {
                return Err(VmError::Overflow);
            }
            let _ = self.stack.pop();
            let _ = self.stack.pop();
            self.stack.push(a - b);
            proof {
                assert(self.stack@ =~= old(self).stack@.take(n as int - 2).push((a - b) as u8));
            }
            Ok(None)
        } else if str_eq(op, "mul") {
            let n = self.stack.len();
            if n < 2 {
                return Err(VmError::EmptyStack);
            }
            let a = self.stack.get(n - 2);
            let b = self.stack.get(n - 1);
            proof {
                assert((a as int) * (b as int) <= 65025) by (nonlinear_arith)
                    requires
                        a as int <= 255,
                        b as int <= 255,
                ;
            }
            let product = a as u16 * b as u16;
            if product > 255 {
                return Err(VmError::Overflow);
            }
            let _ = self.stack.pop();
            let _ = self.stack.pop();
            self.stack.push(product as u8);
            proof {
                assert(self.stack@ =~= old(self).stack@.take(n as int - 2).push((a * b) as u8));
            }
            Ok(None)
        } else if str_eq(op, "div") {
            let n = self.stack.len();
            if n < 2 {
                return Err(VmError::EmptyStack);
            }
            let a = self.stack.get(n - 2);
            let b = self.stack.get(n - 1);
            if b == 0 {
                return Err(VmError::DivisionByZero);
            }
            let _ = self.stack.pop();
            let _ = self.stack.pop();
            self.stack.push(a / b);
            proof {
                assert(self.stack@ =~= old(self).stack@.take(n as int - 2).push(a / b));
            }
            Ok(None)
        } else if str_eq(op, "put") {
            match self.put() {
                Ok(_) => Ok(None),
                Err(e) => Err(e),
            }
        } else if str_eq(op, "read") {
            match self.read() {
                Ok(mode) => Ok(Some(mode)),
                Err(e) => Err(e),
            }
        } else if str_eq(op, "cmp") {
            match self.compare() {
                Ok(_) => Ok(None),
                Err(e) => Err(e),
            }
        } else if str_eq(op, "and") {
            let n = self.stack.len();
            if n < 2 {
                return Err(VmError::EmptyStack);
            }
            let a = self.stack.get(n - 2);
            let b = self.stack.get(n - 1);
            let _ = self.stack.pop();
            let _ = self.stack.pop();
            self.stack.push(a & b);
            proof {
                assert(self.stack@ =~= old(self).stack@.take(n as int - 2).push(a & b));
            }
            Ok(None)
        } else if str_eq(op, "or") {
            let n = self.stack.len();
            if n < 2 {
                return Err(VmError::EmptyStack);
            }
            let a = self.stack.get(n - 2);
            let b = self.stack.get(n - 1);
            let _ = self.stack.pop();
            let _ = self.stack.pop();
            self.stack.push(a | b);
            proof {
                assert(self.stack@ =~= old(self).stack@.take(n as int - 2).push(a | b));
            }
            Ok(None)
        } else if str_eq(op, "xor") {
            let n = self.stack.len();
            if n < 2 {
                return Err(VmError::EmptyStack);
            }
            let a = self.stack.get(n - 2);
            let b = self.stack.get(n - 1);
            let _ = self.stack.pop();
            let _ = self.stack.pop();
            self.stack.push(a ^ b);
            proof {
                assert(self.stack@ =~= old(self).stack@.take(n as int - 2).push(a ^ b));
            }
            Ok(None)
        } else if str_eq(op, "not") {
            let n = self.stack.len();
            if n < 1 {
                return Err(VmError::EmptyStack);
            }
            let a = self.stack.get(n - 1);
            let _ = self.stack.pop();
            self.stack.push(!a);
            proof {
                assert(self.stack@ =~= old(self).stack@.drop_last().push(!a));
            }
            Ok(None)
        } else if str_eq(op, "copy") {
            let n = self.stack.len();
            if n < 1 {
                return Err(VmError::EmptyStack);
            }
            let a = self.stack.get(n - 1);
            self.stack.push(a);
            Ok(None)
        } else if str_eq(op, "drop") {
            let n = self.stack.len();
            if n < 1 {
                return Err(VmError::EmptyStack);
            }
            let _ = self.stack.pop();
            Ok(None)
        } else if str_eq(op, "halt") {
            self.halt = true;
            Ok(None)
        } else {
            Err(VmError::InvalidInstruction)
        }
    }

    /// Runs one one-argument instruction by name.
    pub fn instruction_with_parameter(
        &mut self,
        instruction: &String,
        parameter: &String,
    ) -> (r: Result<Option<ReadMode>, VmError>)
        requires
            old(self).wf(),
        ensures
            final(self).wf(),
            final(self).lines() == old(self).lines(),
            inst1_effect(old(self).lines(), instruction@, parameter@, old(self).st())
                == result_step(r, final(self).st()),
    {
        let op = instruction.as_str();
        if str_eq(op, "load") {
            if is_string(parameter) {
                let bytes = parse_string(parameter);
                let mut j: usize = 0;
                proof {
                    assert(self.stack@ =~= old(self).stack@ + bytes@.take(0));
                }
                while j < bytes.len()
                    invariant
                        j <= bytes.len(),
                        bytes@ == quoted_bytes(parameter@),
                        self.stack@ == old(self).stack@ + bytes@.take(j as int),
                        self.source == old(self).source,
                        self.halt == old(self).halt,
                        self.output == old(self).output,
                    decreases bytes.len() - j,
                {
                    self.stack.push(bytes[j]);
                    proof {
                        assert(self.stack@ =~= old(self).stack@ + bytes@.take(j as int + 1));
                    }
                    j += 1;
                }
                proof {
                    assert(bytes@.take(bytes@.len() as int) =~= bytes@);
                }
                Ok(None)
            } else if is_integer(parameter) {
                match parse_integer(parameter) {
                    Ok(v) => {
                        self.stack.push(v);
                        Ok(None)
                    },
                    Err(e) => Err(e),
                }
            } else {
                Ok(None)
            }
        } else if str_eq(op, "jmp") {
            self.jump(parameter.as_str());
            Ok(None)
        } else if str_eq(op, "jeq") {
            let n = self.stack.len();
            if n < 1 {
                return Err(VmError::EmptyStack);
            }
            let flag = self.stack.get(n - 1);
            if flag == FLAG_EQ {
                self.jump(parameter.as_str());
            }
            Ok(None)
        } else if str_eq(op, "jne") {
            let n = self.stack.len();
            if n < 1 {
                return Err(VmError::EmptyStack);
            }
            let flag = self.stack.get(n - 1);
            if flag == FLAG_GR || flag == FLAG_LE {
                self.jump(parameter.as_str());
            }
            Ok(None)
        } else if str_eq(op, "jgr") {
            let n = self.stack.len();
            if n < 1 {
                return Err(VmError::EmptyStack);
            }
            let flag = self.stack.get(n - 1);
            if flag == FLAG_GR {
                self.jump(parameter.as_str());
            }
            Ok(None)
        } else if str_eq(op, "jle") {
            let n = self.stack.len();
            if n < 1 {
                return Err(VmError::EmptyStack);
            }
            let flag = self.stack.get(n - 1);
            if flag == FLAG_LE {
                self.jump(parameter.as_str());
            }
            Ok(None)
        } else {
            Err(VmError::InvalidInstruction)
        }
    }

    /// Executes one fetched line: skips a label line, dispatches an
    /// instruction line by its arity, and rejects any other shape.
    pub fn execute_(&mut self, line: &Vec<String>) -> (r: Result<Option<ReadMode>, VmError>)
        requires
            old(self).wf(),
        ensures
            final(self).wf(),
            final(self).lines() == old(self).lines(),
            line_effect(old(self).lines(), line.deep_view(), old(self).st()) == result_step(
                r, final(self).st()),
    {
        proof {
            assert(line.deep_view().len() == line@.len());
            if line@.len() > 0 {
                assert(line.deep_view()[0] == line@[0]@);
            }
            if line@.len() > 1 {
                assert(line.deep_view()[1] == line@[1]@);
            }
        }
        let n = line.len();
        if n == 1 {
            let token = &line[0];
            let is_label = token.as_str().unicode_len() > 0 && token.as_str().get_char(0) == '#';
            if is_label {
                return Ok(None);
            }
            self.instruction(token)
        } else if n == 2 {
            self.instruction_with_parameter(&line[0], &line[1])
        } else {
            Err(VmError::InvalidArity)
        }
    }

    /// The fetch-decode-execute loop.  It runs until the program halts
    /// or ends (`Done`), a `read` instruction wants input (`Need`), an
    /// error stops the run, or a very large step budget is spent
    /// (`More`).  Whatever is reported, the machine's state is exactly
    /// what stepping the machine some number of times from its starting
    /// state yields, and the report names how that run stands.
    pub fn execute(&mut self) -> (r: Result<ExecOutcome, VmError>)
        requires
            old(self).wf(),
        ensures
            final(self).wf(),
            final(self).lines() == old(self).lines(),
            exists|n: nat|
                run_n(old(self).lines(), old(self).st(), n) == result_run(r, final(self).st()),
            r == Ok::<ExecOutcome, VmError>(ExecOutcome::More) ==> run_n(
                old(self).lines(), old(self).st(), u64::MAX as nat) == RunV::Running(
                final(self).st()),
    {
        let ghost lines = self.lines();
        let ghost s0 = self.st();
        let ghost mut steps: nat = 0;
        let mut fuel: u64 = u64::MAX;
        proof {
            assert(run_n(lines, s0, 0) == RunV::Running(s0));
        }
        while fuel > 0
            invariant
                self.wf(),
                lines == old(self).lines(),
                s0 == old(self).st(),
                self.lines() == lines,
                steps + fuel == u64::MAX as nat,
                run_n(lines, s0, steps) == RunV::Running(self.st()),
            decreases fuel,
        {
            fuel = fuel - 1;
            let ghost s_pre = self.st();
            proof {
                self.source.lemma_wf_bounds();
            }
            match self.source.next() {
                None => {
                    proof {
                        assert(self.st() =~= if s_pre.ip == lines.len() {
                            s_pre
                        } else {
                            advanced(s_pre)
                        });
                        assert(step(lines, s_pre) == RunV::Done(self.st()));
                        assert(run_n(lines, s0, steps + 1) == RunV::Done(self.st()));
                    }
                    return Ok(ExecOutcome::Done);
                },
                Some(line) => {
                    if self.halt {
                        proof {
                            assert(self.st() =~= advanced(s_pre));
                            assert(step(lines, s_pre) == RunV::Done(self.st()));
                            assert(run_n(lines, s0, steps + 1) == RunV::Done(self.st()));
                        }
                        return Ok(ExecOutcome::Done);
                    }
                    let ghost s_fetched = self.st();
                    proof {
                        assert(s_fetched =~= advanced(s_pre));
                        assert(line.deep_view() == lines[s_pre.ip + 1]);
                    }
                    match self.execute_(&line) {
                        Ok(None) => {
                            proof {
                                assert(step(lines, s_pre) == RunV::Running(self.st()));
                                assert(run_n(lines, s0, steps + 1) == RunV::Running(self.st()));
                                steps = steps + 1;
                            }
                        },
                        Ok(Some(mode)) => {
                            proof {
                                assert(step(lines, s_pre) == RunV::Need(mode, self.st()));
                                assert(run_n(lines, s0, steps + 1) == RunV::Need(
                                    mode, self.st()));
                            }
                            return Ok(ExecOutcome::Need(mode));
                        },
                        Err(e) => {
                            proof {
                                assert(step(lines, s_pre) == RunV::Fail(e, self.st()));
                                assert(run_n(lines, s0, steps + 1) == RunV::Fail(e, self.st()));
                            }
                            return Err(e);
                        },
                    }
                },
            }
        }
        proof {
            assert(run_n(lines, s0, steps) == RunV::Running(self.st()));
        }
        Ok(ExecOutcome::More)
    }
}

} // verus!
