//! The machine that runs a program one step at a time: each step says what it
//! asks of the world (output to write, a line of input to read, the end).
use vstd::prelude::*;

use crate::args::{InputMethod, InterpreterArgs, OutputMethod};
use crate::optimizer::{amount, count_fits, is_add, is_zero_step, make_step};
use crate::parser::Instruction;
use crate::text::{decimal_bytes, parse_u8, parse_u8_prefix, push_decimal_bytes};
use vstd::utf8::encode_scalar;

verus! {

/// The byte seen on input and output when newlines and zeros are exchanged.
pub open spec fn swap_newline_zero(c: u8) -> u8 {
    if c == 0 {
        10
    } else if c == 10 {
        0
    } else {
        c
    }
}

/// Exchanges the byte values of '\n' (10) and '\0' (0).
pub fn newline_zero_map(c: u8) -> (r: u8)
    ensures
        r == swap_newline_zero(c),
{
    match c {
        0 => 10,
        10 => 0,
        _ => c,
    }
}

/// Leaves a byte as it is (the input and output map when newlines are not exchanged).
pub fn useless_map(c: u8) -> (r: u8)
    ensures
        r == c,
{
    c
}

/// The map applied to bytes read and written.
pub open spec fn io_map(newline_zero: bool, c: u8) -> u8 {
    if newline_zero {
        swap_newline_zero(c)
    } else {
        c
    }
}

fn io_map_exec(newline_zero: bool, c: u8) -> (r: u8)
    ensures
        r == io_map(newline_zero, c),
{
    if newline_zero {
        newline_zero_map(c)
    } else {
        useless_map(c)
    }
}

/// The state of a running program.
pub struct Machine {
    pub program: Seq<Instruction>,
    pub array: Seq<u8>,
    pub pointer: nat,
    pub ip: nat,
    /// bytes read but not yet consumed, the next one last
    pub queue: Seq<u8>,
    pub input_method: InputMethod,
    pub output_method: OutputMethod,
    pub newline_zero: bool,
    pub max_array_size: Option<u32>,
}

/// What one step of a program asks of the world around it.
pub enum Event {
    /// An instruction ran.
    Ran,
    /// A `:3c` ran; these bytes are written.
    Output(Seq<u8>),
    /// A `>:3` waits for a line of input.
    NeedInput,
    /// The program has ended.
    Finished,
    /// A move would take the pointer past the end of the array.
    PointerOverflow,
    /// A move would take the pointer below zero.
    PointerUnderflow,
    /// The cell under the pointer does not exist (an array of size zero).
    OutOfBounds,
    /// A loop would resume past the last position a `usize` can count.
    JumpOverflow,
}

/// What giving a line of input to a waiting `>:3` does.
#[derive(Debug, Clone, Copy, PartialEq, Eq, Structural)]
pub enum InputOutcome {
    /// The byte was stored and the program moved on.
    Stored,
    /// The line gave no byte; another line is needed.
    NeedMore,
    /// The line cannot be read as the input method asks.
    Invalid,
}

/// The result of one step, as the caller receives it.
#[derive(Debug)]
pub enum StepOutcome {
    Ran,
    Output(Vec<u8>),
    NeedInput,
    Finished,
    PointerOverflow,
    PointerUnderflow,
    OutOfBounds,
    JumpOverflow,
}

impl View for StepOutcome {
    type V = Event;

    open spec fn view(&self) -> Event {
        match self {
            StepOutcome::Ran => Event::Ran,
            StepOutcome::Output(bytes) => Event::Output(bytes@),
            StepOutcome::NeedInput => Event::NeedInput,
            StepOutcome::Finished => Event::Finished,
            StepOutcome::PointerOverflow => Event::PointerOverflow,
            StepOutcome::PointerUnderflow => Event::PointerUnderflow,
            StepOutcome::OutOfBounds => Event::OutOfBounds,
            StepOutcome::JumpOverflow => Event::JumpOverflow,
        }
    }
}

/// The bytes written for the byte `c`: as a character (its UTF-8 encoding),
/// or as a decimal number followed by a newline.
pub open spec fn output_bytes(method: OutputMethod, c: u8) -> Seq<u8> {
    match method {
        OutputMethod::Normal => encode_scalar(c as u32),
        OutputMethod::ByteAsNumber => decimal_bytes(c as nat).push(10),
    }
}

/// The states a program can be in: the array has its fixed size, or at least
/// one cell when it grows; the pointer is inside it unless it has no cell.
pub open spec fn machine_ok(m: Machine) -> bool {
    &&& match m.max_array_size {
        Some(n) => m.array.len() == n,
        None => m.array.len() >= 1,
    }
    &&& m.array.len() > 0 ==> m.pointer < m.array.len()
    &&& m.array.len() == 0 ==> m.pointer == 0
    &&& m.array.len() <= usize::MAX
    &&& m.program.len() <= usize::MAX
    &&& m.ip <= usize::MAX
    &&& m.queue.len() <= usize::MAX
}

/// The state before the first step.
pub open spec fn start_machine(
    program: Seq<Instruction>,
    input_method: InputMethod,
    output_method: OutputMethod,
    newline_zero: bool,
    max_array_size: Option<u32>,
) -> Machine {
    Machine {
        program,
        array: match max_array_size {
            Some(n) => Seq::new(n as nat, |_i: int| 0u8),
            None => seq![0u8],
        },
        pointer: 0,
        ip: 0,
        queue: Seq::empty(),
        input_method,
        output_method,
        newline_zero,
        max_array_size,
    }
}

/// The byte under the pointer.
pub open spec fn cell(m: Machine) -> u8 {
    m.array[m.pointer as int]
}

pub open spec fn advance(m: Machine) -> Machine {
    Machine { ip: m.ip + 1, ..m }
}

pub open spec fn write_cell(m: Machine, v: u8) -> Machine {
    Machine { array: m.array.update(m.pointer as int, v), ..m }
}

/// `a` extended with zeros to `n` cells (unchanged if it has that many).
pub open spec fn grow(a: Seq<u8>, n: nat) -> Seq<u8> {
    if a.len() >= n {
        a
    } else {
        a + Seq::new((n - a.len()) as nat, |_i: int| 0u8)
    }
}

/// One step of the program: the next state and what the step asks for.
/// A move right on a growing array extends it with zero cells up to the
/// pointer, as far as the move needs. On a fixed array, any move right that
/// would reach or pass its end overflows, however long the move: the pointer
/// never leaves a fixed array, as the tool promises to stop a program whose
/// pointer goes past the array limit. A move past what a `usize` counts
/// overflows too. A loop that would resume past what a `usize` counts stops
/// the program.
pub open spec fn step_spec(m: Machine) -> (Machine, Event) {
    if m.ip >= m.program.len() {
        (m, Event::Finished)
    } else {
        match m.program[m.ip as int] {
            Instruction::PointerIncrement(x) => {
                let target: nat = m.pointer + x as nat;
                match m.max_array_size {
                    Some(n) => if target >= n || target >= usize::MAX {
                        (m, Event::PointerOverflow)
                    } else {
                        (advance(Machine { pointer: target, ..m }), Event::Ran)
                    },
                    None => if target >= usize::MAX {
                        (m, Event::PointerOverflow)
                    } else {
                        (
                            advance(
                                Machine { pointer: target, array: grow(m.array, target + 1), ..m },
                            ),
                            Event::Ran,
                        )
                    },
                }
            },
            Instruction::PointerDecrement(x) => if x > m.pointer {
                (m, Event::PointerUnderflow)
            } else {
                (advance(Machine { pointer: (m.pointer - x) as nat, ..m }), Event::Ran)
            },
            Instruction::ByteIncrement(x) => if m.pointer >= m.array.len() {
                (m, Event::OutOfBounds)
            } else {
                (
                    advance(write_cell(m, ((cell(m) + x % 256) % 256) as u8)),
                    Event::Ran,
                )
            },
            Instruction::ByteDecrement(x) => if m.pointer >= m.array.len() {
                (m, Event::OutOfBounds)
            } else {
                (
                    advance(write_cell(m, ((cell(m) - x % 256) % 256) as u8)),
                    Event::Ran,
                )
            },
            Instruction::ByteOutput => if m.pointer >= m.array.len() {
                (m, Event::OutOfBounds)
            } else {
                (
                    advance(m),
                    Event::Output(
                        output_bytes(m.output_method, io_map(m.newline_zero, cell(m))),
                    ),
                )
            },
            Instruction::ByteInput => if m.pointer >= m.array.len() {
                (m, Event::OutOfBounds)
            } else if m.input_method == InputMethod::Normal && m.queue.len() > 0 {
                (
                    advance(
                        Machine {
                            queue: m.queue.drop_last(),
                            ..write_cell(m, m.queue.last())
                        },
                    ),
                    Event::Ran,
                )
            } else {
                (m, Event::NeedInput)
            },
            Instruction::OpenLoop(t) => if m.pointer >= m.array.len() {
                (m, Event::OutOfBounds)
            } else if cell(m) == 0 {
                if t >= usize::MAX {
                    (m, Event::JumpOverflow)
                } else {
                    (Machine { ip: t as nat + 1, ..m }, Event::Ran)
                }
            } else {
                (advance(m), Event::Ran)
            },
            Instruction::CloseLoop(t) => if m.pointer >= m.array.len() {
                (m, Event::OutOfBounds)
            } else if cell(m) != 0 {
                if t >= usize::MAX {
                    (m, Event::JumpOverflow)
                } else {
                    (Machine { ip: t as nat + 1, ..m }, Event::Ran)
                }
            } else {
                (advance(m), Event::Ran)
            },
        }
    }
}

/// The input queue a line gives: its bytes mapped, the first one last.
pub open spec fn line_queue(newline_zero: bool, bytes: Seq<u8>) -> Seq<u8> {
    Seq::new(bytes.len(), |i: int| io_map(newline_zero, bytes[bytes.len() - 1 - i]))
}

/// What giving the line `line` to a waiting `>:3` does.
/// Normal: the line's UTF-8 bytes are queued and the first is stored; an
/// empty line gives nothing. FirstCharOnly: the low byte of the first
/// character is stored. ByteAsNumber: the line without its last byte is read
/// as a decimal byte; that last byte must be a whole character.
pub open spec fn input_spec(m: Machine, line: Seq<char>) -> (Machine, InputOutcome) {
    match m.input_method {
        InputMethod::Normal => {
            let q = line_queue(m.newline_zero, vstd::utf8::encode_utf8(line));
            if q.len() == 0 {
                (Machine { queue: q, ..m }, InputOutcome::NeedMore)
            } else {
                (
                    advance(Machine { queue: q.drop_last(), ..write_cell(m, q.last()) }),
                    InputOutcome::Stored,
                )
            }
        },
        InputMethod::FirstCharOnly => if line.len() == 0 {
            (m, InputOutcome::Invalid)
        } else {
            (
                advance(write_cell(m, io_map(m.newline_zero, ((line[0] as u32) % 256) as u8))),
                InputOutcome::Stored,
            )
        },
        InputMethod::ByteAsNumber => if line.len() == 0 || line.last() as u32 >= 128 {
            (m, InputOutcome::Invalid)
        } else {
            match parse_u8(line.drop_last()) {
                Some(v) => (
                    advance(write_cell(m, io_map(m.newline_zero, v))),
                    InputOutcome::Stored,
                ),
                None => (m, InputOutcome::Invalid),
            }
        },
    }
}

/// A running program: its instructions, its array and pointer, its
/// instruction pointer and the input it has read but not used.
pub struct Interpreter {
    instructions: Vec<Instruction>,
    array: Vec<u8>,
    array_pointer: usize,
    instruction_pointer: usize,
    input_queue: Vec<u8>,
    input_method: InputMethod,
    output_method: OutputMethod,
    newline_zero: bool,
    max_array_size: Option<u32>,
}

impl View for Interpreter {
    type V = Machine;

    closed spec fn view(&self) -> Machine {
        Machine {
            program: self.instructions@,
            array: self.array@,
            pointer: self.array_pointer as nat,
            ip: self.instruction_pointer as nat,
            queue: self.input_queue@,
            input_method: self.input_method,
            output_method: self.output_method,
            newline_zero: self.newline_zero,
            max_array_size: self.max_array_size,
        }
    }
}

fn output_for(method: OutputMethod, c: u8) -> (r: Vec<u8>)
    ensures
        r@ == output_bytes(method, c),
{
    match method {
        OutputMethod::Normal => {
            let mut out: Vec<u8> = Vec::new();
            if c < 0x80 {
                out.push(c);
                assert((c as u32 & 0x7F) as u8 == c) by (bit_vector)
                    requires
                        c < 0x80,
                ;
            } else {
                let lead: u8 = 0xC0 | (c >> 6);
                let last: u8 = 0x80 | (c & 0x3F);
                out.push(lead);
                out.push(last);
                assert(lead == (0xC0 | ((c as u32 >> 6) & 0x1F) as u8)) by (bit_vector)
                    requires
                        lead == 0xC0 | (c >> 6),
                ;
                assert(last == (0x80 | (c as u32 & 0x3F) as u8)) by (bit_vector)
                    requires
                        last == 0x80 | (c & 0x3F),
                ;
            }
            assert(out@ =~= output_bytes(method, c));
            out
        },
        OutputMethod::ByteAsNumber => {
            let mut out: Vec<u8> = Vec::new();
            push_decimal_bytes(&mut out, c as u64);
            out.push(10);
            assert(out@ =~= output_bytes(method, c));
            out
        },
    }
}

/// Extends `a` with zero cells up to `n` cells.
fn grow_to(a: &mut Vec<u8>, n: usize)
    ensures
        final(a)@ == grow(old(a)@, n as nat),
{
    let ghost before = a@;
    if a.len() >= n {
        return;
    }
    while a.len() < n
        invariant
            a@.len() <= n,
            a@.len() >= before.len(),
            a@ =~= before + Seq::new((a@.len() - before.len()) as nat, |_i: int| 0u8),
        decreases n - a@.len(),
    {
        a.push(0);
    }
    assert(a@ =~= grow(before, n as nat));
}

/// The input queue a line of bytes gives.
fn queue_of_line(newline_zero: bool, bytes: &[u8]) -> (r: Vec<u8>)
    ensures
        r@ == line_queue(newline_zero, bytes@),
{
    let n = bytes.len();
    let mut queue: Vec<u8> = Vec::new();
    let mut i: usize = 0;
    while i < n
        invariant
            n == bytes@.len(),
            i <= n,
            queue@ =~= line_queue(newline_zero, bytes@).take(i as int),
        decreases n - i,
    {
        queue.push(io_map_exec(newline_zero, bytes[n - 1 - i]));
        i += 1;
    }
    assert(queue@ =~= line_queue(newline_zero, bytes@));
    queue
}

fn collect_chars(line: &str) -> (r: Vec<char>)
    ensures
        r@ == line@,
{
    let mut chars: Vec<char> = Vec::new();
    for c in it: line.chars()
        invariant
            chars@ == it.seq().take(it.index() as int),
            it.seq() == line@,
    {
        chars.push(c);
    }
    assert(chars@ =~= line@);
    chars
}

impl Interpreter {
    /// Whether the state is one that a program can be in.
    pub closed spec fn wf(&self) -> bool {
        machine_ok(self@)
    }

    /// Starts the program: a growing array of one zero cell, or a fixed
    /// array of `max_array_size` zero cells; pointer and instruction pointer at 0.
    pub fn new<T: InterpreterArgs>(instructions: Vec<Instruction>, args: &T) -> (r: Self)
        ensures
            r.wf(),
            r@ == start_machine(
                instructions@,
                args.spec_input_method(),
                args.spec_output_method(),
                args.spec_newline_zero(),
                args.spec_max_array_size(),
            ),
    {
        proof {
            assert(instructions.len() == instructions@.len());
        }
        let input_method = *args.get_input_method();
        let output_method = *args.get_output_method();
        let newline_zero = args.get_newline_zero();
        let max_array_size = args.get_max_array_size();
        let array: Vec<u8> = match max_array_size {
            Some(n) => {
                let mut a: Vec<u8> = Vec::new();
                let mut i: u32 = 0;
                while i < n
                    invariant
                        i <= n,
                        a@ =~= Seq::new(i as nat, |_i: int| 0u8),
                    decreases n - i,
                {
                    a.push(0);
                    i += 1;
                }
                a
            },
            None => {
                let mut a: Vec<u8> = Vec::new();
                a.push(0);
                a
            },
        };
        let r = Interpreter {
            instructions,
            array,
            array_pointer: 0,
            instruction_pointer: 0,
            input_queue: Vec::new(),
            input_method,
            output_method,
            newline_zero,
            max_array_size,
        };
        assert(r@.array =~= start_machine(
            instructions@,
            input_method,
            output_method,
            newline_zero,
            max_array_size,
        ).array);
        r
    }

    /// The array of cells.
    pub fn array(&self) -> (r: &Vec<u8>)
        ensures
            r@ == self@.array,
    {
        &self.array
    }

    /// Ends the program and hands back its array.
    pub fn into_array(self) -> (r: Vec<u8>)
        ensures
            r@ == self@.array,
    {
        self.array
    }

    /// Runs one instruction, or says why it cannot run.
    pub fn step(&mut self) -> (r: StepOutcome)
        requires
            old(self).wf(),
        ensures
            final(self).wf(),
            final(self)@ == step_spec(old(self)@).0,
            r@ == step_spec(old(self)@).1,
    {
        let ghost m = self@;
        let ip = self.instruction_pointer;
        if ip >= self.instructions.len() {
            return StepOutcome::Finished;
        }
        let p = self.array_pointer;
        match self.instructions[ip] {
            Instruction::PointerIncrement(x) => {
                if x >= usize::MAX - p {
                    return StepOutcome::PointerOverflow;
                }
                let target = p + x;
                match self.max_array_size {
                    Some(n) => {
                        if target >= n as usize {
                            return StepOutcome::PointerOverflow;
                        }
                    },
                    None => {
                        grow_to(&mut self.array, target + 1);
                    },
                }
                self.array_pointer = target;
                self.instruction_pointer = ip + 1;
                StepOutcome::Ran
            },
            Instruction::PointerDecrement(x) => {
                if x > p {
                    return StepOutcome::PointerUnderflow;
                }
                self.array_pointer = p - x;
                self.instruction_pointer = ip + 1;
                StepOutcome::Ran
            },
            Instruction::ByteIncrement(x) => {
                if p >= self.array.len() {
                    return StepOutcome::OutOfBounds;
                }
                let c = self.array[p];
                let v = ((c as u16 + (x % 256) as u16) % 256) as u8;
                self.array.set(p, v);
                self.instruction_pointer = ip + 1;
                StepOutcome::Ran
            },
            Instruction::ByteDecrement(x) => {
                if p >= self.array.len() {
                    return StepOutcome::OutOfBounds;
                }
                let c = self.array[p];
                let v = ((c as u16 + 256 - (x % 256) as u16) % 256) as u8;
                assert((c - x % 256) % 256 == (c + 256 - x % 256) % 256);
                self.array.set(p, v);
                self.instruction_pointer = ip + 1;
                StepOutcome::Ran
            },
            Instruction::ByteOutput => {
                if p >= self.array.len() {
                    return StepOutcome::OutOfBounds;
                }
                let c = io_map_exec(self.newline_zero, self.array[p]);
                let bytes = output_for(self.output_method, c);
                self.instruction_pointer = ip + 1;
                StepOutcome::Output(bytes)
            },
            Instruction::ByteInput => {
                if p >= self.array.len() {
                    return StepOutcome::OutOfBounds;
                }
                if self.input_method == InputMethod::Normal && self.input_queue.len() > 0 {
                    let v = self.input_queue.pop().unwrap();
                    self.array.set(p, v);
                    self.instruction_pointer = ip + 1;
                    StepOutcome::Ran
                } else {
                    StepOutcome::NeedInput
                }
            },
            Instruction::OpenLoop(t) => {
                if p >= self.array.len() {
                    return StepOutcome::OutOfBounds;
                }
                if self.array[p] == 0 {
                    assert(m.program[m.ip as int] == Instruction::OpenLoop(t));
                    if t == usize::MAX {
                        return StepOutcome::JumpOverflow;
                    }
                    self.instruction_pointer = t + 1;
                } else {
                    self.instruction_pointer = ip + 1;
                }
                StepOutcome::Ran
            },
            Instruction::CloseLoop(t) => {
                if p >= self.array.len() {
                    return StepOutcome::OutOfBounds;
                }
                if self.array[p] != 0 {
                    assert(m.program[m.ip as int] == Instruction::CloseLoop(t));
                    if t == usize::MAX {
                        return StepOutcome::JumpOverflow;
                    }
                    self.instruction_pointer = t + 1;
                } else {
                    self.instruction_pointer = ip + 1;
                }
                StepOutcome::Ran
            },
        }
    }

    /// Gives a line of input to the `>:3` that is waiting for it.
    pub fn give_input(&mut self, line: &str) -> (r: InputOutcome)
        requires
            old(self).wf(),
            step_spec(old(self)@).1 == Event::NeedInput,
        ensures
            final(self).wf(),
            final(self)@ == input_spec(old(self)@, line@).0,
            r == input_spec(old(self)@, line@).1,
    {
        let p = self.array_pointer;
        let ip = self.instruction_pointer;
        let program_length = self.instructions.len();
        assert(ip < program_length);
        assert(self.instructions@[ip as int] == Instruction::ByteInput);
        assert(p < self.array@.len());
        let chars = collect_chars(line);
        match self.input_method {
            InputMethod::Normal => {
                let mut queue = queue_of_line(self.newline_zero, line.as_bytes());
                if queue.len() == 0 {
                    self.input_queue = queue;
                    InputOutcome::NeedMore
                } else {
                    let v = queue.pop().unwrap();
                    self.input_queue = queue;
                    self.array.set(p, v);
                    self.instruction_pointer = ip + 1;
                    InputOutcome::Stored
                }
            },
            InputMethod::FirstCharOnly => {
                if chars.len() == 0 {
                    return InputOutcome::Invalid;
                }
                let v = io_map_exec(self.newline_zero, ((chars[0] as u32) % 256) as u8);
                self.array.set(p, v);
                self.instruction_pointer = ip + 1;
                InputOutcome::Stored
            },
            InputMethod::ByteAsNumber => {
                let n = chars.len();
                if n == 0 || chars[n - 1] as u32 >= 128 {
                    return InputOutcome::Invalid;
                }
                assert(chars@.take(n - 1) =~= line@.drop_last());
                match parse_u8_prefix(&chars, n - 1) {
                    Some(v) => {
                        let v = io_map_exec(self.newline_zero, v);
                        self.array.set(p, v);
                        self.instruction_pointer = ip + 1;
                        InputOutcome::Stored
                    },
                    None => InputOutcome::Invalid,
                }
            },
        }
    }
}

} // verus!

verus! {

/// Exchanging newlines and zeros twice gives back the byte: the map undoes itself.
pub proof fn newline_zero_map_undoes_itself(c: u8)
    ensures
        swap_newline_zero(swap_newline_zero(c)) == c,
{
}

/// Adding `x` to the cell and then subtracting `x` gives back the cell's
/// byte: additions and subtractions wrap around modulo 256.
pub proof fn add_then_subtract_restores_cell(m: Machine, x: usize)
    requires
        machine_ok(m),
        m.ip + 1 < m.program.len(),
        m.program[m.ip as int] == Instruction::ByteIncrement(x),
        m.program[m.ip + 1int] == Instruction::ByteDecrement(x),
        m.pointer < m.array.len(),
    ensures
        step_spec(step_spec(m).0).0.array == m.array,
        step_spec(step_spec(m).0).0.ip == m.ip + 2,
        step_spec(m).1 == Event::Ran,
        step_spec(step_spec(m).0).1 == Event::Ran,
{
    let m1 = step_spec(m).0;
    let c = cell(m) as int;
    let y = (x % 256) as int;
    assert(m1.array[m.pointer as int] == ((c + y) % 256) as u8);
    assert((((c + y) % 256) - y) % 256 == c) by (nonlinear_arith)
        requires
            0 <= c < 256,
            0 <= y < 256,
    ;
    assert(step_spec(m1).0.array =~= m.array);
}

/// In a linked program, a `nya` on a zero cell resumes right after its
/// matching `:3`, and a `:3` on a non-zero cell right after its matching `nya`.
pub proof fn loops_jump_past_their_partner(s: Seq<Instruction>, m: Machine)
    requires
        machine_ok(m),
        crate::loops::linked(s, m.program),
        m.ip < m.program.len(),
        m.pointer < m.array.len(),
    ensures
        m.program[m.ip as int] is OpenLoop && cell(m) == 0 ==> exists|j: int|
            crate::loops::loops_match(s, m.ip as int, j) && step_spec(m).0.ip == j + 1,
        m.program[m.ip as int] is CloseLoop && cell(m) != 0 ==> exists|i: int|
            crate::loops::loops_match(s, i, m.ip as int) && step_spec(m).0.ip == i + 1,
{
    let k = m.ip as int;
    match m.program[k] {
        Instruction::OpenLoop(j) => {
            if cell(m) == 0 {
                assert(crate::loops::loops_match(s, k, j as int));
            }
        },
        Instruction::CloseLoop(i) => {
            if cell(m) != 0 {
                assert(crate::loops::loops_match(s, i as int, k));
            }
        },
        _ => {},
    }
}

} // verus!

verus! {

/// `m` with the single instruction `i` in place of its program, about to run it.
pub open spec fn alone(m: Machine, i: Instruction) -> Machine {
    Machine { program: seq![i], ip: 0, ..m }
}

/// An addition changes the cell under the pointer by its signed count,
/// modulo 256.
pub proof fn additions_add_their_amount(m: Machine)
    requires
        machine_ok(m),
        m.ip < m.program.len(),
        is_add(m.program[m.ip as int]),
        count_fits(m.program[m.ip as int]),
        m.pointer < m.array.len(),
    ensures
        step_spec(m) == (
            advance(write_cell(m, ((cell(m) + amount(m.program[m.ip as int])) % 256) as u8)),
            Event::Ran,
        ),
{
    let c = cell(m) as int;
    match m.program[m.ip as int] {
        Instruction::ByteIncrement(x) => {
            vstd::arithmetic::div_mod::lemma_add_mod_noop_right(c, x as int, 256);
        },
        Instruction::ByteDecrement(x) => {
            vstd::arithmetic::div_mod::lemma_sub_mod_noop_right(c, x as int, 256);
        },
        _ => {},
    }
}

/// Two adjacent additions leave the cell as the one addition the optimiser
/// merges them into.
pub proof fn merged_additions_agree(m: Machine)
    requires
        machine_ok(m),
        m.ip + 1 < m.program.len(),
        is_add(m.program[m.ip as int]),
        is_add(m.program[m.ip + 1int]),
        count_fits(m.program[m.ip as int]),
        count_fits(m.program[m.ip + 1int]),
        -i32::MAX <= amount(m.program[m.ip as int]) + amount(m.program[m.ip + 1int]) <= i32::MAX,
        m.pointer < m.array.len(),
    ensures
        step_spec(m).1 == Event::Ran,
        step_spec(step_spec(m).0).1 == Event::Ran,
        step_spec(step_spec(m).0).0.array == step_spec(
            alone(m, make_step(false, amount(m.program[m.ip as int]) + amount(m.program[m.ip + 1int]))),
        ).0.array,
{
    let a = amount(m.program[m.ip as int]);
    let b = amount(m.program[m.ip + 1int]);
    let c = cell(m) as int;
    let merged = make_step(false, a + b);
    additions_add_their_amount(m);
    let m1 = step_spec(m).0;
    assert(m1.program == m.program && m1.ip == m.ip + 1 && m1.pointer == m.pointer);
    assert(cell(m1) == ((c + a) % 256) as u8);
    additions_add_their_amount(m1);
    let single = alone(m, merged);
    assert(amount(merged) == a + b && is_add(merged) && count_fits(merged));
    assert(single.program[0] == merged);
    additions_add_their_amount(single);
    lemma_mod_add_twice(c, a, b);
    assert(step_spec(m1).0.array =~= step_spec(single).0.array);
}

proof fn lemma_mod_add_twice(c: int, a: int, b: int)
    ensures
        ((c + a) % 256 + b) % 256 == (c + a + b) % 256,
{
    vstd::arithmetic::div_mod::lemma_add_mod_noop((c + a) % 256, b, 256);
    vstd::arithmetic::div_mod::lemma_mod_twice(c + a, 256);
    vstd::arithmetic::div_mod::lemma_add_mod_noop(c + a, b, 256);
}

/// Growing to `n` and then to `k >= n` cells is growing to `k` cells.
proof fn lemma_grow_twice(a: Seq<u8>, n: nat, k: nat)
    requires
        n <= k,
    ensures
        grow(grow(a, n), k) == grow(a, k),
{
    assert(grow(grow(a, n), k) =~= grow(a, k));
}

/// Two adjacent moves in the same direction leave the pointer and the array
/// as the one move the optimiser merges them into, and fail as it does.
pub proof fn merged_moves_agree(m: Machine)
    requires
        machine_ok(m),
        m.ip + 1 < m.program.len(),
        m.program[m.ip as int] is PointerIncrement && m.program[m.ip + 1int] is PointerIncrement
            || m.program[m.ip as int] is PointerDecrement && m.program[m.ip + 1int]
            is PointerDecrement,
        count_fits(m.program[m.ip as int]),
        count_fits(m.program[m.ip + 1int]),
        -i32::MAX <= amount(m.program[m.ip as int]) + amount(m.program[m.ip + 1int]) <= i32::MAX,
        m.pointer < m.array.len(),
    ensures
        ({
            let merged = make_step(
                true,
                amount(m.program[m.ip as int]) + amount(m.program[m.ip + 1int]),
            );
            let two = step_spec(step_spec(m).0);
            let one = step_spec(alone(m, merged));
            &&& two.1 == one.1
            &&& one.1 == Event::Ran ==> two.0.pointer == one.0.pointer && two.0.array
                == one.0.array
        }),
{
    let a = amount(m.program[m.ip as int]);
    let b = amount(m.program[m.ip + 1int]);
    let merged = make_step(true, a + b);
    let m1 = step_spec(m).0;
    let single = alone(m, merged);
    assert(single.program[0] == merged);
    match m.program[m.ip as int] {
        Instruction::PointerIncrement(x) => {
            assert(merged == Instruction::PointerIncrement((a + b) as usize));
            if step_spec(m).1 == Event::Ran {
                assert(m1.program == m.program);
                assert(m1.ip == m.ip + 1);
                match m.max_array_size {
                    Some(n) => {},
                    None => {
                        lemma_grow_twice(m.array, (m.pointer + a + 1) as nat, (m.pointer + a + b + 1) as nat);
                    },
                }
            }
        },
        Instruction::PointerDecrement(x) => {
            if step_spec(m).1 == Event::Ran {
                assert(m1.program == m.program);
                assert(m1.ip == m.ip + 1);
            }
        },
        _ => {},
    }
}

/// A move or addition by zero changes nothing but the instruction pointer:
/// dropping it, as the optimiser does, leaves the run alike.
pub proof fn zero_steps_change_nothing(m: Machine)
    requires
        machine_ok(m),
        m.ip < m.program.len(),
        is_zero_step(m.program[m.ip as int]),
        m.pointer < m.array.len(),
    ensures
        step_spec(m) == (advance(m), Event::Ran),
{
    let c = cell(m);
    match m.program[m.ip as int] {
        Instruction::PointerIncrement(_) => {
            assert(grow(m.array, m.pointer + 1) == m.array);
        },
        Instruction::ByteIncrement(_) => {
            assert(write_cell(m, c) == m) by {
                assert(m.array.update(m.pointer as int, c) =~= m.array);
            }
        },
        Instruction::ByteDecrement(_) => {
            assert(write_cell(m, c) == m) by {
                assert(m.array.update(m.pointer as int, c) =~= m.array);
            }
        },
        _ => {},
    }
}

/// The array only grows, and only with cells of 0: a step keeps every cell
/// but the one it writes, and a fixed array keeps its size. Giving a line of
/// input to a waiting `>:3` keeps the array's size too.
pub proof fn arrays_grow_with_zero_cells(m: Machine, line: Seq<char>)
    requires
        machine_ok(m),
    ensures
        step_spec(m).0.array.len() >= m.array.len(),
        m.max_array_size is Some ==> step_spec(m).0.array.len() == m.array.len(),
        forall|k: int|
            m.array.len() <= k < step_spec(m).0.array.len() ==> #[trigger] step_spec(m).0.array[k]
                == 0,
        forall|k: int|
            0 <= k < m.array.len() && k != m.pointer ==> #[trigger] step_spec(m).0.array[k]
                == m.array[k],
        step_spec(m).1 == Event::NeedInput ==> input_spec(m, line).0.array.len() == m.array.len(),
{
}

} // verus!

verus! {

/// The byte a `:3c` writes for the cell `c`: with newlines and zeros
/// exchanged when asked.
proof fn lemma_output_event(m: Machine)
    requires
        machine_ok(m),
        m.ip < m.program.len(),
        m.program[m.ip as int] == Instruction::ByteOutput,
        m.pointer < m.array.len(),
    ensures
        step_spec(m).1 == Event::Output(
            output_bytes(m.output_method, io_map(m.newline_zero, cell(m))),
        ),
{
}

/// In byte-as-number output a `:3c` writes the decimal digits of its byte
/// (the cell, with 10 and 0 exchanged when asked), most significant first and
/// without leading zeros, then a newline: one, two or three digits for bytes
/// below 10, below 100, and from 100 on.
pub proof fn number_output_writes_decimal_digits(m: Machine)
    requires
        machine_ok(m),
        m.ip < m.program.len(),
        m.program[m.ip as int] == Instruction::ByteOutput,
        m.pointer < m.array.len(),
        m.output_method == OutputMethod::ByteAsNumber,
    ensures
        ({
            let c: int = if m.newline_zero {
                swap_newline_zero(cell(m)) as int
            } else {
                cell(m) as int
            };
            let e = step_spec(m).1;
            &&& c < 10 ==> e == Event::Output(seq![(48 + c) as u8, 10u8])
            &&& 10 <= c < 100 ==> e == Event::Output(
                seq![(48 + c / 10) as u8, (48 + c % 10) as u8, 10u8],
            )
            &&& 100 <= c ==> e == Event::Output(
                seq![(48 + c / 100) as u8, (48 + (c / 10) % 10) as u8, (48 + c % 10) as u8, 10u8],
            )
        }),
{
    lemma_output_event(m);
    let v = io_map(m.newline_zero, cell(m));
    let c = v as nat;
    if c < 10 {
        assert(decimal_bytes(c).push(10) =~= seq![(48 + c) as u8, 10u8]);
    } else if c < 100 {
        assert(decimal_bytes(c / 10) == seq![(48 + c / 10) as u8]);
        assert(decimal_bytes(c).push(10) =~= seq![(48 + c / 10) as u8, (48 + c % 10) as u8, 10u8]);
    } else {
        assert((c / 10) / 10 == c / 100);
        assert(decimal_bytes(c / 100) == seq![(48 + c / 100) as u8]);
        assert(decimal_bytes(c / 10) =~= seq![(48 + c / 100) as u8, (48 + (c / 10) % 10) as u8]);
        assert(decimal_bytes(c).push(10) =~= seq![
            (48 + c / 100) as u8,
            (48 + (c / 10) % 10) as u8,
            (48 + c % 10) as u8,
            10u8,
        ]);
    }
}

/// In normal output a `:3c` writes its byte (the cell, with 10 and 0
/// exchanged when asked) as the character of that code: the byte itself
/// below 128, else the two bytes of its UTF-8 encoding.
pub proof fn character_output_writes_the_byte(m: Machine)
    requires
        machine_ok(m),
        m.ip < m.program.len(),
        m.program[m.ip as int] == Instruction::ByteOutput,
        m.pointer < m.array.len(),
        m.output_method == OutputMethod::Normal,
    ensures
        ({
            let c: int = if m.newline_zero {
                swap_newline_zero(cell(m)) as int
            } else {
                cell(m) as int
            };
            let e = step_spec(m).1;
            &&& c < 128 ==> e == Event::Output(seq![c as u8])
            &&& 128 <= c ==> e == Event::Output(seq![(0xC0 + c / 64) as u8, (0x80 + c % 64) as u8])
        }),
{
    lemma_output_event(m);
    let v = io_map(m.newline_zero, cell(m));
    let u = v as u32;
    if v < 128 {
        assert(vstd::utf8::has_width_1_encoding(u)) by (bit_vector)
            requires
                u < 128,
        ;
        assert(vstd::utf8::leading_byte_width_1(u) == v) by (bit_vector)
            requires
                u == v as u32,
                u < 128,
        ;
    } else {
        assert(!vstd::utf8::has_width_1_encoding(u) && vstd::utf8::has_width_2_encoding(u)) by (bit_vector)
            requires
                128 <= u < 256,
        ;
        assert(vstd::utf8::leading_byte_width_2(u) == (0xC0 + u / 64) as u8) by (bit_vector)
            requires
                128 <= u < 256,
        ;
        assert(vstd::utf8::last_continuation_byte(u) == (0x80 + u % 64) as u8) by (bit_vector)
            requires
                128 <= u < 256,
        ;
    }
}

/// With normal input, a line given to a waiting `>:3` stores its first UTF-8
/// byte and queues the others for the next `>:3`s, the next one last, each
/// with 10 and 0 exchanged when asked; an empty line stores nothing.
pub proof fn normal_input_stores_each_byte(m: Machine, line: Seq<char>)
    requires
        machine_ok(m),
        step_spec(m).1 == Event::NeedInput,
        m.input_method == InputMethod::Normal,
    ensures
        ({
            let b = vstd::utf8::encode_utf8(line);
            let r = input_spec(m, line);
            &&& (r.1 == InputOutcome::Stored) <==> b.len() > 0
            &&& b.len() == 0 ==> r.1 == InputOutcome::NeedMore && r.0.queue.len() == 0 && r.0.array
                == m.array && r.0.ip == m.ip
            &&& b.len() > 0 ==> {
                &&& r.0.array == m.array.update(
                    m.pointer as int,
                    if m.newline_zero {
                        swap_newline_zero(b[0])
                    } else {
                        b[0]
                    },
                )
                &&& r.0.ip == m.ip + 1
                &&& r.0.pointer == m.pointer
                &&& r.0.queue.len() == b.len() - 1
                &&& forall|j: int|
                    0 <= j < b.len() - 1 ==> #[trigger] r.0.queue[j] == if m.newline_zero {
                        swap_newline_zero(b[b.len() - 1 - j])
                    } else {
                        b[b.len() - 1 - j]
                    }
            }
        }),
{
    let b = vstd::utf8::encode_utf8(line);
    let q = line_queue(m.newline_zero, b);
    if b.len() > 0 {
        assert(q.last() == q[b.len() - 1]);
        assert forall|j: int| 0 <= j < b.len() - 1 implies #[trigger] q.drop_last()[j] == q[j] by {}
    }
}

/// A `>:3` with bytes still queued from normal input stores the next one and
/// drops it from the queue.
pub proof fn queued_input_is_stored_next(m: Machine)
    requires
        machine_ok(m),
        m.ip < m.program.len(),
        m.program[m.ip as int] == Instruction::ByteInput,
        m.pointer < m.array.len(),
        m.input_method == InputMethod::Normal,
        m.queue.len() > 0,
    ensures
        step_spec(m).1 == Event::Ran,
        step_spec(m).0.array == m.array.update(m.pointer as int, m.queue[m.queue.len() - 1]),
        step_spec(m).0.queue == m.queue.subrange(0, m.queue.len() - 1),
        step_spec(m).0.ip == m.ip + 1,
{
    assert(m.queue.drop_last() =~= m.queue.subrange(0, m.queue.len() - 1));
}

} // verus!

verus! {

/// The decimal writing of the byte `v`: one to three digits, no leading zero.
pub open spec fn byte_digits(v: u8) -> Seq<char> {
    if v < 10 {
        seq![(48 + v) as char]
    } else if v < 100 {
        seq![(48 + v / 10) as char, (48 + v % 10) as char]
    } else {
        seq![(48 + v / 100) as char, (48 + (v / 10) % 10) as char, (48 + v % 10) as char]
    }
}

proof fn lemma_parse_byte_digits(v: u8)
    ensures
        crate::text::parse_u8(byte_digits(v)) == Some(v),
{
    let d = byte_digits(v);
    reveal_with_fuel(crate::text::digits_value, 4);
    assert(d[0] != '+');
    assert(crate::text::strip_plus(d) == d);
    assert forall|i: int| 0 <= i < d.len() implies crate::text::is_digit(#[trigger] d[i]) by {}
    assert(((48 + v % 10) as char) as u32 == 48 + v % 10);
    assert(((48 + v) as char) as u32 == 48 + v);
    assert(((48 + v / 10) as char) as u32 == 48 + v / 10);
    assert(((48 + (v / 10) % 10) as char) as u32 == 48 + (v / 10) % 10);
    assert(((48 + v / 100) as char) as u32 == 48 + v / 100);
    if v < 10 {
        assert(d.drop_last() =~= Seq::<char>::empty());
        assert(crate::text::digits_value(d) == v);
    } else if v < 100 {
        assert(d.drop_last() =~= seq![(48 + v / 10) as char]);
        assert(d.drop_last().drop_last() =~= Seq::<char>::empty());
        assert(crate::text::digits_value(d) == v);
    } else {
        let d2 = d.drop_last();
        assert(d2 =~= seq![(48 + v / 100) as char, (48 + (v / 10) % 10) as char]);
        assert(d2.drop_last() =~= seq![(48 + v / 100) as char]);
        assert(d2.drop_last().drop_last() =~= Seq::<char>::empty());
        assert(crate::text::digits_value(d2) == v / 10);
        assert(crate::text::digits_value(d) == v);
    }
}

/// With byte-as-number input, a line holding the decimal writing of a byte
/// and then a newline stores that byte (with 10 and 0 exchanged when asked);
/// an empty line, and a lone newline, are refused.
pub proof fn number_input_reads_the_byte(m: Machine, v: u8)
    requires
        machine_ok(m),
        step_spec(m).1 == Event::NeedInput,
        m.input_method == InputMethod::ByteAsNumber,
    ensures
        input_spec(m, byte_digits(v).push('\n')).1 == InputOutcome::Stored,
        input_spec(m, byte_digits(v).push('\n')).0.array == m.array.update(
            m.pointer as int,
            if m.newline_zero {
                swap_newline_zero(v)
            } else {
                v
            },
        ),
        input_spec(m, byte_digits(v).push('\n')).0.ip == m.ip + 1,
        input_spec(m, Seq::empty()).1 == InputOutcome::Invalid,
        input_spec(m, seq!['\n']).1 == InputOutcome::Invalid,
{
    lemma_parse_byte_digits(v);
    let line = byte_digits(v).push('\n');
    assert(line.drop_last() =~= byte_digits(v));
    assert(seq!['\n'].drop_last() =~= Seq::<char>::empty());
    assert(crate::text::parse_u8(Seq::<char>::empty()) is None);
}

} // verus!
